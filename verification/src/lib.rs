//! Decompression library for the AZO format.
//!
//! AZO is an LZ77 variant with arithmetic coding, adaptive probability models,
//! and an optional x86 CALL/JMP address filter. The entry point is
//! [`extract_azo`].
pub mod crc;
pub mod error;
pub mod match_code;
pub mod model;
pub mod range;
pub mod recent;
pub mod table;
pub mod x86;

use vstd::prelude::*;
use crate::crc::{Crc32, crc32, crc_fold, lemma_crc_fold_append};
use crate::match_code::{MatchCode, MatchModel, initial_match_model, lemma_match_decode_bounds, match_decode, match_model_shape};
use crate::model::{BoolModel, BoolState, PredictModel, PredictProb, bool_decode, fresh_tree, predict_decode, BOOL_TOTAL_COUNT};
use crate::range::{CoderState, RangeDecoder, bytes_fetched, stream_value};
use crate::x86::x86_unfilter;
use vstd::arithmetic::power2::pow2;

pub use crate::error::{AzoError, AzoFailure};

verus! {

/// Safety ceiling on a single decompressed block. The declared block size is
/// an untrusted u32 from the stream with no maximum defined by the format, so
/// a crafted block could otherwise force a multi-gigabyte allocation.
pub const MAX_BLOCK_SIZE: usize = 256 * 1024 * 1024;

/// The stream's version byte.
pub const AZO_VERSION: u8 = 0x31;

/// `out` followed by `n` bytes copied one by one from `distance` bytes back
/// (an LZ77 back-reference, which may overlap what it produces).
pub open spec fn lz_copy(out: Seq<u8>, distance: int, n: nat) -> Seq<u8>
    decreases n,
{
    if n == 0 {
        out
    } else {
        let o = lz_copy(out, distance, (n - 1) as nat);
        o.push(o[o.len() - distance])
    }
}

/// A back-reference copy appends exactly `n` bytes.
pub proof fn lemma_lz_copy_len(out: Seq<u8>, distance: int, n: nat)
    ensures
        lz_copy(out, distance, n).len() == out.len() + n,
        lz_copy(out, distance, n).take(out.len() as int) == out,
    decreases n,
{
    if n > 0 {
        lemma_lz_copy_len(out, distance, (n - 1) as nat);
        let o = lz_copy(out, distance, (n - 1) as nat);
        assert(o.push(o[o.len() - distance]).take(out.len() as int) =~= o.take(out.len() as int));
    }
}

/// The state of a block decode: the output so far, the literal model, the
/// match flag model, the match model, and the range decoder.
pub struct BlockState {
    pub out: Seq<u8>,
    pub alpha: PredictModel,
    pub flag: BoolModel,
    pub matches: MatchModel,
    pub coder: CoderState,
}

/// One step of a block decode, while output is missing: a flag chooses
/// between a literal (modelled in the context of the byte before it) and a
/// match, which must reach back no further than the block's start and is cut
/// off at the block's end.
#[verifier::opaque]
pub open spec fn block_step(st: BlockState, block_size: nat) -> Result<BlockState, AzoError> {
    let i = st.out.len();
    let (flag, f, s1) = bool_decode(st.flag, st.coder);
    if flag == 0 {
        let (v, a, s2) = predict_decode(st.alpha, st.out[i - 1] as int, s1);
        Ok(BlockState { out: st.out.push(v as u8), alpha: a, flag: f, coder: s2, ..st })
    } else {
        let ((distance, length), mm, s2) = match_decode(st.matches, i as u32, s1);
        if distance == 0 || distance > i {
            Err(AzoError::Failed(AzoFailure::InvalidMatch { distance, pos: i as usize }))
        } else {
            let n = if length < block_size - i {
                length as nat
            } else {
                (block_size - i) as nat
            };
            Ok(
                BlockState {
                    out: lz_copy(st.out, distance as int, n),
                    flag: f,
                    matches: mm,
                    coder: s2,
                    ..st
                },
            )
        }
    }
}

/// A step adds output.
pub proof fn lemma_block_step_grows(st: BlockState, block_size: nat)
    requires
        match_model_shape(st.matches),
        1 <= st.out.len() < block_size,
    ensures
        block_step(st, block_size) matches Ok(next) ==> st.out.len() < next.out.len()
            <= block_size,
{
    reveal(block_step);
    let i = st.out.len();
    let (flag, f, s1) = bool_decode(st.flag, st.coder);
    if flag != 0 {
        let ((distance, length), mm, s2) = match_decode(st.matches, i as u32, s1);
        lemma_match_decode_bounds(st.matches, i as u32, s1);
        let n = if length < block_size - i {
            length as nat
        } else {
            (block_size - i) as nat
        };
        lemma_lz_copy_len(st.out, distance as int, n);
    }
}

/// Each byte a back-reference copy appends repeats the byte `distance`
/// before it.
pub proof fn lemma_lz_copy_repeats(out: Seq<u8>, distance: int, n: nat)
    requires
        1 <= distance <= out.len(),
    ensures
        forall|j: int|
            out.len() <= j < out.len() + n ==> #[trigger] lz_copy(out, distance, n)[j] == lz_copy(
                out,
                distance,
                n,
            )[j - distance],
    decreases n,
{
    lemma_lz_copy_len(out, distance, n);
    if n > 0 {
        let o = lz_copy(out, distance, (n - 1) as nat);
        lemma_lz_copy_len(out, distance, (n - 1) as nat);
        lemma_lz_copy_repeats(out, distance, (n - 1) as nat);
        let r = lz_copy(out, distance, n);
        assert(r == o.push(o[o.len() - distance]));
        assert forall|j: int| out.len() <= j < out.len() + n implies #[trigger] r[j] == r[j
            - distance] by {
            if j < out.len() + n - 1 {
                assert(r[j] == o[j]);
                assert(r[j - distance] == o[j - distance]);
            }
        }
    }
}

/// Law: one step of a block decode. When the flag decodes 0, the next byte
/// is a literal decoded in the context of the byte before it. When it
/// decodes 1, a match (distance, length) is decoded at the current output
/// position: a distance from 1 up to that position, so reaching back at
/// most to the block's first byte, appends the match, cut off at the
/// block's end, each byte repeating the one `distance` before it; a
/// distance of 0 or past the block's start is rejected.
pub proof fn lemma_block_step_law(st: BlockState, block_size: nat)
    requires
        1 <= st.out.len() < block_size,
    ensures
        ({
            let i = st.out.len() as int;
            let (flag, f, s1) = bool_decode(st.flag, st.coder);
            let (v, a, s2) = predict_decode(st.alpha, st.out[i - 1] as int, s1);
            let ((distance, length), mm, s3) = match_decode(st.matches, i as u32, s1);
            let n = if length < block_size - i {
                length as int
            } else {
                block_size - i
            };
            &&& flag == 0 ==> block_step(st, block_size) == Ok::<BlockState, AzoError>(
                BlockState { out: st.out.push(v as u8), alpha: a, flag: f, coder: s2, ..st },
            )
            &&& flag != 0 && 1 <= distance <= i ==> (block_step(st, block_size) matches Ok(next)
                && next.out.len() == i + n && next.out.take(i) == st.out && (forall|j: int|
                i <= j < i + n ==> #[trigger] next.out[j] == next.out[j - distance])
                && next.alpha == st.alpha && next.flag == f && next.matches == mm && next.coder
                == s3)
            &&& flag != 0 && (distance == 0 || distance > i) ==> block_step(st, block_size)
                == Err::<BlockState, AzoError>(
                AzoError::Failed(AzoFailure::InvalidMatch { distance, pos: i as usize }),
            )
        }),
{
    reveal(block_step);
    let i = st.out.len() as int;
    let (flag, f, s1) = bool_decode(st.flag, st.coder);
    let ((distance, length), mm, s3) = match_decode(st.matches, i as u32, s1);
    if flag != 0 && 1 <= distance <= i {
        let n: nat = if length < block_size - i {
            length as nat
        } else {
            (block_size - i) as nat
        };
        lemma_lz_copy_len(st.out, distance as int, n);
        lemma_lz_copy_repeats(st.out, distance as int, n);
    }
}

/// Decoding the rest of a block of `block_size` bytes: steps until the
/// output is complete; then every input byte must have been fetched.
pub open spec fn block_run(st: BlockState, block_size: nat) -> Result<Seq<u8>, AzoError>
    decreases block_size - st.out.len(),
    when match_model_shape(st.matches) && st.out.len() >= 1
{
    if st.out.len() >= block_size {
        if bytes_fetched(st.coder.bits) >= st.coder.data.len() {
            Ok(st.out)
        } else {
            Err(AzoError::Failed(AzoFailure::TrailingBytes))
        }
    } else {
        match block_step(st, block_size) {
            Ok(next) => {
                proof {
                    lemma_block_step_grows(st, block_size);
                }
                block_run(next, block_size)
            },
            Err(e) => Err(e),
        }
    }
}

/// The literal model before the first byte.
pub open spec fn initial_alpha() -> PredictModel {
    PredictModel {
        prob1: Seq::new(256, |i: int| fresh_tree(256)),
        prob2: Seq::new(8, |i: int| fresh_tree(256)),
        lucky: Seq::new(256, |i: int| 0i32),
        shift: 5,
    }
}

/// The match flag model before the first byte.
pub open spec fn initial_flag() -> BoolModel {
    BoolModel { state: 0, prob: Seq::new(pow2(8), |i: int| BOOL_TOTAL_COUNT / 2), n_bits: 8 }
}

/// Decoding a compressed block of `block_size` bytes from `data`: the first
/// byte is a literal in context 0, the rest as `block_run` says.
#[verifier::opaque]
pub open spec fn decode_block(data: Seq<u8>, block_size: nat) -> Result<Seq<u8>, AzoError> {
    let s0 = CoderState {
        data,
        low: 0,
        up: 0xFFFF_FFFF,
        tag: stream_value(data, 0, 32),
        bits: 32,
    };
    let (v, a, s1) = predict_decode(initial_alpha(), 0, s0);
    block_run(
        BlockState {
            out: seq![v as u8],
            alpha: a,
            flag: initial_flag(),
            matches: initial_match_model(),
            coder: s1,
        },
        block_size,
    )
}

/// A block result with its output as a sequence.
pub open spec fn block_view(r: Result<Vec<u8>, AzoError>) -> Result<Seq<u8>, AzoError> {
    match r {
        Ok(v) => Ok(v@),
        Err(e) => Err(e),
    }
}

fn zeroed(n: usize) -> (v: Vec<u8>)
    ensures
        v@.len() == n,
{
    let mut v: Vec<u8> = Vec::new();
    while v.len() < n
        invariant
            v@.len() <= n,
        decreases n - v@.len(),
    {
        v.push(0);
    }
    v
}

/// Decompress one block of `block_size` bytes from `data`.
pub fn decompress_block(data: &[u8], block_size: usize) -> (r: Result<Vec<u8>, AzoError>)
    requires
        1 <= block_size <= MAX_BLOCK_SIZE,
    ensures
        block_view(r) == decode_block(data@, block_size as nat),
        r matches Ok(v) ==> v@.len() == block_size,
{
    proof {
        reveal(decode_block);
    }
    let mut entropy = RangeDecoder::new(data);
    entropy.initialize();

    let mut buf = zeroed(block_size);

    let mut alpha = PredictProb::new(256, 256, 5);
    let mut match_flag = BoolState::new(8);
    let mut match_code = MatchCode::new();
    proof {
        vstd::arithmetic::power2::lemma2_to64();
        assert(alpha@.prob2 =~= initial_alpha().prob2);
    }

    let first = alpha.decode(&mut entropy, 0) as u8;
    buf.set(0, first);
    let ghost mut out: Seq<u8> = seq![first];

    let mut i: usize = 1;
    while i < block_size
        invariant
            1 <= block_size <= MAX_BLOCK_SIZE,
            1 <= i,
            i < block_size ==> out.len() == i,
            i >= block_size ==> out.len() == block_size,
            buf@.len() == block_size,
            out == buf@.take(out.len() as int),
            entropy.wf(),
            alpha.wf(),
            alpha@.prob1.len() == 256,
            alpha@.prob2.len() == 8,
            alpha@.shift == 5,
            alpha.decodes() <= i,
            match_flag.wf(),
            match_code.wf(),
            match_code.decodes() <= i,
            block_run(
                BlockState {
                    out,
                    alpha: alpha@,
                    flag: match_flag@,
                    matches: match_code@,
                    coder: entropy.state(),
                },
                block_size as nat,
            ) == decode_block(data@, block_size as nat),
        decreases block_size - out.len(),
    {
        let ghost st = BlockState {
            out,
            alpha: alpha@,
            flag: match_flag@,
            matches: match_code@,
            coder: entropy.state(),
        };
        proof {
            match_code.lemma_shape();
            vstd::arithmetic::power2::lemma2_to64();
        }
        let flag = match_flag.decode(&mut entropy);
        if flag == 0 {
            let context = buf[i - 1] as usize;
            assert(context == out[i - 1]);
            let v = alpha.decode(&mut entropy, context) as u8;
            buf.set(i, v);
            proof {
                out = out.push(v);
                assert(out =~= buf@.take(i + 1));
                assert(block_step(st, block_size as nat) == Ok::<BlockState, AzoError>(
                    BlockState {
                        out,
                        alpha: alpha@,
                        flag: match_flag@,
                        matches: match_code@,
                        coder: entropy.state(),
                    },
                )) by {
                    reveal(block_step);
                }
                assert(block_run(st, block_size as nat) == block_run(
                    BlockState {
                        out,
                        alpha: alpha@,
                        flag: match_flag@,
                        matches: match_code@,
                        coder: entropy.state(),
                    },
                    block_size as nat,
                ));
            }
            i += 1;
        } else {
            let (distance, length) = match_code.decode(&mut entropy, i as u32);
            if distance == 0 || distance as usize > i {
                assert(block_step(st, block_size as nat) == Err::<BlockState, AzoError>(
                    AzoError::Failed(AzoFailure::InvalidMatch { distance, pos: i }),
                )) by {
                    reveal(block_step);
                }
                return Err(AzoError::Failed(AzoFailure::InvalidMatch { distance, pos: i }));
            }
            let ghost n: nat = if length < block_size - i {
                length as nat
            } else {
                (block_size - i) as nat
            };
            let src_start = i - distance as usize;
            let mut j: usize = 0;
            while j < length as usize && i + j < block_size
                invariant
                    i < block_size,
                    1 <= distance <= i,
                    src_start == i - distance,
                    j <= length,
                    i + j <= block_size,
                    n == if length < block_size - i {
                        length as nat
                    } else {
                        (block_size - i) as nat
                    },
                    buf@.len() == block_size,
                    out.len() == i,
                    lz_copy(out, distance as int, j as nat) == buf@.take(i + j),
                decreases length - j,
            {
                let b = buf[src_start + j];
                proof {
                    lemma_lz_copy_len(out, distance as int, j as nat);
                }
                buf.set(i + j, b);
                j += 1;
                assert(lz_copy(out, distance as int, j as nat) =~= buf@.take(i + j));
            }
            proof {
                lemma_lz_copy_len(out, distance as int, j as nat);
                assert(j == n);
                out = lz_copy(out, distance as int, n);
                assert(block_step(st, block_size as nat) == Ok::<BlockState, AzoError>(
                    BlockState {
                        out,
                        alpha: alpha@,
                        flag: match_flag@,
                        matches: match_code@,
                        coder: entropy.state(),
                    },
                )) by {
                    reveal(block_step);
                }
                match_code.lemma_shape();
                assert(block_run(st, block_size as nat) == block_run(
                    BlockState {
                        out,
                        alpha: alpha@,
                        flag: match_flag@,
                        matches: match_code@,
                        coder: entropy.state(),
                    },
                    block_size as nat,
                ));
            }
            i += length as usize;
        }
    }

    proof {
        match_code.lemma_shape();
    }
    if !entropy.fully_consumed() {
        return Err(AzoError::Failed(AzoFailure::TrailingBytes));
    }
    assert(buf@ =~= out);
    Ok(buf)
}

/// The big-endian u32 at `k`.
pub open spec fn be_word(data: Seq<u8>, k: int) -> u32 {
    (data[k] * 0x100_0000 + data[k + 1] * 0x1_0000 + data[k + 2] * 0x100 + data[k + 3]) as u32
}

/// The output of one block whose header and data are valid: stored as is
/// when both sizes agree, else decoded.
pub open spec fn block_output(block: Seq<u8>, block_size: u32, compress_size: u32) -> Result<
    Seq<u8>,
    AzoError,
> {
    if compress_size == block_size {
        Ok(block)
    } else {
        decode_block(block, block_size as nat)
    }
}

/// What the block at `pos` comes to: the terminal block, a block's output
/// (filtered when `x86`) with where the next block starts and the output
/// declared so far, or the error that rejects it.
pub enum BlockOutcome {
    End,
    Block { out: Seq<u8>, next: int, total: int },
    Fail(AzoError),
}

/// The block at `pos`. `total` is the output declared so far, counted only
/// under a `max_output`.
#[verifier::opaque]
pub open spec fn block_at(
    data: Seq<u8>,
    pos: int,
    x86: bool,
    max_output: Option<u64>,
    total: int,
) -> BlockOutcome {
    if pos < 0 || pos + 12 > data.len() {
        BlockOutcome::Fail(AzoError::Failed(AzoFailure::TruncatedBlockHeader))
    } else {
        let block_size = be_word(data, pos);
        let compress_size = be_word(data, pos + 4);
        let check_value = be_word(data, pos + 8);
        let start = pos + 12;
        if block_size == 0 && compress_size == 0 {
            BlockOutcome::End
        } else if block_size ^ compress_size != check_value {
            BlockOutcome::Fail(AzoError::Failed(AzoFailure::CheckValueMismatch))
        } else if block_size == 0 {
            BlockOutcome::Fail(AzoError::Failed(AzoFailure::ZeroBlockSize))
        } else if compress_size == 0 {
            BlockOutcome::Fail(AzoError::Failed(AzoFailure::ZeroCompressedSize))
        } else if block_size > MAX_BLOCK_SIZE {
            BlockOutcome::Fail(AzoError::Failed(AzoFailure::BlockTooLarge(block_size)))
        } else if max_output matches Some(max) && total + block_size > max {
            BlockOutcome::Fail(AzoError::Failed(AzoFailure::OutputExceedsMax))
        } else if start + compress_size > data.len() {
            BlockOutcome::Fail(AzoError::Failed(AzoFailure::TruncatedBlockData))
        } else {
            let end = start + compress_size;
            match block_output(data.subrange(start, end), block_size, compress_size) {
                Err(e) => BlockOutcome::Fail(e),
                Ok(out) => BlockOutcome::Block {
                    out: if x86 {
                        x86_unfilter(out)
                    } else {
                        out
                    },
                    next: end,
                    total: if max_output is Some {
                        total + block_size
                    } else {
                        total
                    },
                },
            }
        }
    }
}

/// A block ends after its 12-byte header, within the stream.
pub proof fn lemma_block_at_advances(
    data: Seq<u8>,
    pos: int,
    x86: bool,
    max_output: Option<u64>,
    total: int,
)
    ensures
        block_at(data, pos, x86, max_output, total) matches BlockOutcome::Block { next, .. }
            ==> pos + 12 <= next <= data.len(),
{
    reveal(block_at);
}

/// The blocks of a stream from `pos` on: what they write, and the error
/// that stops them (none when a terminal block ends them).
pub open spec fn extract_blocks(
    data: Seq<u8>,
    pos: int,
    x86: bool,
    max_output: Option<u64>,
    total: int,
) -> (Seq<u8>, Option<AzoError>)
    decreases data.len() - pos,
{
    match block_at(data, pos, x86, max_output, total) {
        BlockOutcome::End => (Seq::empty(), None),
        BlockOutcome::Fail(e) => (Seq::empty(), Some(e)),
        BlockOutcome::Block { out, next, total: next_total } => {
            proof {
                lemma_block_at_advances(data, pos, x86, max_output, total);
            }
            let (rest, err) = extract_blocks(data, next, x86, max_output, next_total);
            (out + rest, err)
        },
    }
}

/// Extracting a stream: what is written, and the result (the CRC-32 of all
/// of it, or the error that stopped it). `input` holds what the reader
/// yields; `compressed_size` bytes of it are the stream.
pub open spec fn azo_extract(input: Seq<u8>, compressed_size: u64, max_output: Option<u64>) -> (
    Seq<u8>,
    Result<u32, AzoError>,
) {
    if input.len() < compressed_size {
        (Seq::empty(), Err(AzoError::Failed(AzoFailure::TruncatedStream)))
    } else {
        let data = input.take(compressed_size as int);
        if data.len() < 2 {
            (Seq::empty(), Err(AzoError::Failed(AzoFailure::DataTooShort)))
        } else if data[0] != AZO_VERSION {
            (Seq::empty(), Err(AzoError::Failed(AzoFailure::UnsupportedVersion(data[0]))))
        } else {
            let (out, err) = extract_blocks(data, 2, data[1] & 1 != 0, max_output, 0);
            (
                out,
                match err {
                    None => Ok(crc32(out)),
                    Some(e) => Err(e),
                },
            )
        }
    }
}

/// The stream header's verdict on the first `compressed_size` bytes of
/// `input`: whether its blocks use the x86 filter, or why it is refused.
pub open spec fn stream_header(input: Seq<u8>, compressed_size: u64) -> Result<bool, AzoError> {
    if input.len() < compressed_size {
        Err(AzoError::Failed(AzoFailure::TruncatedStream))
    } else {
        let data = input.take(compressed_size as int);
        if data.len() < 2 {
            Err(AzoError::Failed(AzoFailure::DataTooShort))
        } else if data[0] != AZO_VERSION {
            Err(AzoError::Failed(AzoFailure::UnsupportedVersion(data[0])))
        } else {
            Ok(data[1] & 1 != 0)
        }
    }
}

/// Law: extracting a stream is checking its header, then decoding its blocks
/// one after the other from just past the header, with no output counted yet.
pub proof fn lemma_extract_by_blocks(input: Seq<u8>, compressed_size: u64, max_output: Option<u64>)
    ensures
        azo_extract(input, compressed_size, max_output) == match stream_header(
            input,
            compressed_size,
        ) {
            Err(e) => (Seq::<u8>::empty(), Err(e)),
            Ok(x86) => {
                let (out, err) = extract_blocks(
                    input.take(compressed_size as int),
                    2,
                    x86,
                    max_output,
                    0,
                );
                (
                    out,
                    match err {
                        None => Ok(crc32(out)),
                        Some(e) => Err(e),
                    },
                )
            },
        },
{
}

/// Check the header of the stream made of the first `compressed_size` bytes
/// of `reader`; returns whether its blocks use the x86 filter.
pub fn open_stream(reader: &[u8], compressed_size: u64) -> (r: Result<bool, AzoError>)
    ensures
        r == stream_header(reader@, compressed_size),
{
    if (reader.len() as u64) < compressed_size {
        return Err(AzoError::Failed(AzoFailure::TruncatedStream));
    }
    if compressed_size < 2 {
        return Err(AzoError::Failed(AzoFailure::DataTooShort));
    }
    let version = reader[0];
    if version != AZO_VERSION {
        return Err(AzoError::Failed(AzoFailure::UnsupportedVersion(version)));
    }
    Ok(reader[1] & 0x01 != 0)
}

fn read_be_u32(data: &[u8], k: usize) -> (r: u32)
    requires
        k + 4 <= data@.len(),
    ensures
        r == be_word(data@, k as int),
{
    let b0 = data[k];
    let b1 = data[k + 1];
    let b2 = data[k + 2];
    let b3 = data[k + 3];
    let r = ((b0 as u32) << 24) | ((b1 as u32) << 16) | ((b2 as u32) << 8) | (b3 as u32);
    assert(r == b0 * 0x100_0000 + b1 * 0x1_0000 + b2 * 0x100 + b3) by (bit_vector)
        requires
            r == ((b0 as u32) << 24u32) | ((b1 as u32) << 16u32) | ((b2 as u32) << 8u32) | (
            b3 as u32),
    ;
    r
}

/// Extract an AZO compressed stream.
///
/// Takes `compressed_size` bytes from `reader`, decompresses them, and
/// appends the output to `writer`, block by block. Returns the CRC-32 of the
/// decompressed data.
///
/// `max_output` bounds the total number of decompressed bytes across all
/// blocks; `None` disables the check.
pub fn extract_azo(
    reader: &[u8],
    writer: &mut Vec<u8>,
    compressed_size: u64,
    max_output: Option<u64>,
) -> (r: Result<u32, AzoError>)
    ensures
        final(writer)@ == old(writer)@ + azo_extract(reader@, compressed_size, max_output).0,
        r == azo_extract(reader@, compressed_size, max_output).1,
        max_output matches Some(m) ==> final(writer)@.len() <= old(writer)@.len() + m,
{
    let x86_filter_enabled = match open_stream(reader, compressed_size) {
        Err(e) => return Err(e),
        Ok(x86) => x86,
    };
    let len = reader.len();
    assert(len >= compressed_size);
    let data = vstd::slice::slice_subrange(reader, 0, compressed_size as usize);
    assert(data@ =~= reader@.take(compressed_size as int));

    let mut hasher = Crc32::new();
    let mut pos: usize = 2;
    let mut total_output: u64 = 0;
    let ghost written: Seq<u8> = Seq::empty();
    let ghost whole = extract_blocks(data@, 2, x86_filter_enabled, max_output, 0);

    loop
        invariant
            2 <= pos <= data@.len(),
            writer@ == old(writer)@ + written,
            hasher@ == crc_fold(0xFFFF_FFFFu32, written),
            whole.0 == written + extract_blocks(
                data@,
                pos as int,
                x86_filter_enabled,
                max_output,
                total_output as int,
            ).0,
            whole.1 == extract_blocks(
                data@,
                pos as int,
                x86_filter_enabled,
                max_output,
                total_output as int,
            ).1,
            azo_extract(reader@, compressed_size, max_output) == (
                whole.0,
                match whole.1 {
                    None => Ok(crc32(whole.0)),
                    Some(e) => Err(e),
                },
            ),
            max_output is None ==> total_output == 0,
            max_output matches Some(m) ==> total_output <= m,
            max_output is Some ==> total_output == written.len(),
        decreases data@.len() - pos,
    {
        let step = next_block(data, pos, x86_filter_enabled, max_output, total_output);
        proof {
            lemma_block_at_advances(
                data@,
                pos as int,
                x86_filter_enabled,
                max_output,
                total_output as int,
            );
        }
        match step {
            Err(e) => {
                assert(whole.0 =~= written);
                return Err(e);
            },
            Ok(None) => {
                assert(whole.0 =~= written);
                return Ok(hasher.finalize());
            },
            Ok(Some((mut output, next, next_total))) => {
                proof {
                    lemma_crc_fold_append(0xFFFF_FFFFu32, written, output@);
                    let (rest, err) = extract_blocks(
                        data@,
                        next as int,
                        x86_filter_enabled,
                        max_output,
                        next_total as int,
                    );
                    assert(whole.0 =~= (written + output@) + rest);
                    written = written + output@;
                }
                hasher.update(output.as_slice());
                writer.append(&mut output);
                pos = next;
                total_output = next_total;
            },
        }
    }
}

/// The outcome of `next_block` as a `BlockOutcome`.
pub open spec fn outcome_view(r: Result<Option<(Vec<u8>, usize, u64)>, AzoError>) -> BlockOutcome {
    match r {
        Err(e) => BlockOutcome::Fail(e),
        Ok(None) => BlockOutcome::End,
        Ok(Some((out, next, total))) => BlockOutcome::Block {
            out: out@,
            next: next as int,
            total: total as int,
        },
    }
}

/// Read, check and decompress the block at `pos` of the stream `data`, with
/// `total_output` bytes already produced (counted only under a `max_output`
/// limit): the block's output, where the next block starts, and the new
/// total; `None` at the terminal block.
///
/// Decoding a stream block by block this way, from just past its header,
/// keeps only one block's output at a time.
pub fn next_block(
    data: &[u8],
    pos: usize,
    x86_filter_enabled: bool,
    max_output: Option<u64>,
    total_output: u64,
) -> (r: Result<Option<(Vec<u8>, usize, u64)>, AzoError>)
    requires
        pos <= data@.len(),
        max_output is None ==> total_output == 0,
        max_output matches Some(m) ==> total_output <= m,
    ensures
        outcome_view(r) == block_at(
            data@,
            pos as int,
            x86_filter_enabled,
            max_output,
            total_output as int,
        ),
        r matches Ok(Some((out, _, t))) ==> (max_output is None ==> t == 0) && (
        max_output matches Some(m) ==> t <= m && t == total_output + out@.len()),
{
    proof {
        reveal(block_at);
    }
    if data.len() - pos < 12 {
        return Err(AzoError::Failed(AzoFailure::TruncatedBlockHeader));
    }

    let block_size = read_be_u32(data, pos);
    let compress_size = read_be_u32(data, pos + 4);
    let check_value = read_be_u32(data, pos + 8);
    let pos = pos + 12;

    // Terminal block: both sizes zero.
    if block_size == 0 && compress_size == 0 {
        return Ok(None);
    }

    if (block_size ^ compress_size) != check_value {
        return Err(AzoError::Failed(AzoFailure::CheckValueMismatch));
    }

    // A non-terminal block must produce output and be backed by data;
    // otherwise a 1-byte block could be inflated into a huge one.
    if block_size == 0 {
        return Err(AzoError::Failed(AzoFailure::ZeroBlockSize));
    }
    if compress_size == 0 {
        return Err(AzoError::Failed(AzoFailure::ZeroCompressedSize));
    }

    if block_size as usize > MAX_BLOCK_SIZE {
        return Err(AzoError::Failed(AzoFailure::BlockTooLarge(block_size)));
    }

    let mut total = total_output;
    if let Some(max) = max_output {
        match total_output.checked_add(block_size as u64) {
            Some(t) => {
                if t <= max {
                    total = t;
                } else {
                    return Err(AzoError::Failed(AzoFailure::OutputExceedsMax));
                }
            },
            None => {
                return Err(AzoError::Failed(AzoFailure::OutputExceedsMax));
            },
        }
    }

    let block_end = match pos.checked_add(compress_size as usize) {
        Some(e) => {
            if e <= data.len() {
                e
            } else {
                return Err(AzoError::Failed(AzoFailure::TruncatedBlockData));
            }
        },
        None => {
            return Err(AzoError::Failed(AzoFailure::TruncatedBlockData));
        },
    };
    let block_data = vstd::slice::slice_subrange(data, pos, block_end);

    let mut output = if compress_size == block_size {
        vstd::slice::slice_to_vec(block_data)
    } else {
        match decompress_block(block_data, block_size as usize) {
            Ok(v) => v,
            Err(e) => {
                return Err(e);
            },
        }
    };

    let ghost unfiltered = output@;
    if x86_filter_enabled {
        x86::x86_filter(output.as_mut_slice());
        proof {
            x86::lemma_x86_len(unfiltered);
        }
    }
    Ok(Some((output, block_end, total)))
}

/// The big-endian bytes of `x`.
pub open spec fn be_bytes(x: u32) -> Seq<u8> {
    seq![
        (x / 0x100_0000) as u8,
        ((x / 0x1_0000) % 0x100) as u8,
        ((x / 0x100) % 0x100) as u8,
        (x % 0x100) as u8,
    ]
}

/// A block header for `block_size` and `compress_size`, with its check value.
pub open spec fn block_header(block_size: u32, compress_size: u32) -> Seq<u8> {
    be_bytes(block_size) + be_bytes(compress_size) + be_bytes(block_size ^ compress_size)
}

/// A stream holding `content` as one stored block, then the terminal block.
pub open spec fn stored_stream(content: Seq<u8>, flags: u8) -> Seq<u8> {
    seq![AZO_VERSION, flags] + block_header(content.len() as u32, content.len() as u32) + content
        + block_header(0, 0)
}

proof fn lemma_be_roundtrip(s: Seq<u8>, k: int, x: u32)
    requires
        0 <= k,
        k + 4 <= s.len(),
        s.subrange(k, k + 4) == be_bytes(x),
    ensures
        be_word(s, k) == x,
{
    assert(s[k] == be_bytes(x)[0]);
    assert(s[k + 1] == be_bytes(x)[1]);
    assert(s[k + 2] == be_bytes(x)[2]);
    assert(s[k + 3] == be_bytes(x)[3]);
    let v = x as int;
    assert(v == (v / 0x100_0000) * 0x100_0000 + ((v / 0x1_0000) % 0x100) * 0x1_0000 + ((v / 0x100)
        % 0x100) * 0x100 + v % 0x100);
}

/// Law: an input shorter than the declared compressed size is rejected as
/// truncated, and nothing is written.
pub proof fn lemma_short_input_rejected(input: Seq<u8>, compressed_size: u64, max_output: Option<
    u64,
>)
    requires
        input.len() < compressed_size,
    ensures
        azo_extract(input, compressed_size, max_output) == (
            Seq::<u8>::empty(),
            Err::<u32, AzoError>(AzoError::Failed(AzoFailure::TruncatedStream)),
        ),
{
}

/// Law: a stored block passes through unmodified (through the x86 filter
/// when the flags ask for it), and the result is the CRC-32 of what was
/// written.
#[verifier::spinoff_prover]
#[verifier::rlimit(40)]
pub proof fn lemma_stored_stream(content: Seq<u8>, flags: u8)
    requires
        1 <= content.len() <= MAX_BLOCK_SIZE,
    ensures
        ({
            let s = stored_stream(content, flags);
            let out = if flags & 1 != 0 {
                x86_unfilter(content)
            } else {
                content
            };
            azo_extract(s, s.len() as u64, None) == (out, Ok::<u32, AzoError>(crc32(out)))
        }),
{
    reveal(block_at);
    let n = content.len() as u32;
    let s = stored_stream(content, flags);
    let h = block_header(n, n);
    let t = block_header(0, 0);
    assert(s.take(s.len() as int) =~= s);
    assert(s.subrange(2, 6) =~= be_bytes(n));
    assert(s.subrange(6, 10) =~= be_bytes(n));
    assert(s.subrange(10, 14) =~= be_bytes(n ^ n));
    lemma_be_roundtrip(s, 2, n);
    lemma_be_roundtrip(s, 6, n);
    lemma_be_roundtrip(s, 10, n ^ n);
    assert(n ^ n == 0u32) by (bit_vector);
    let end: int = 14 + content.len() as int;
    assert(s.subrange(14, end) =~= content);
    assert(s.subrange(end, end + 4) =~= be_bytes(0));
    assert(s.subrange(end + 4, end + 8) =~= be_bytes(0));
    assert(s.subrange(end + 8, end + 12) =~= be_bytes(0u32 ^ 0u32));
    lemma_be_roundtrip(s, end, 0);
    lemma_be_roundtrip(s, end + 4, 0);
    assert(0u32 ^ 0u32 == 0u32) by (bit_vector);
    lemma_be_roundtrip(s, end + 8, 0);
    let out = if flags & 1 != 0 {
        x86_unfilter(content)
    } else {
        content
    };
    assert(extract_blocks(s, end, flags & 1 != 0, None, 0) == (Seq::<u8>::empty(), None::<AzoError>));
    assert(out + Seq::<u8>::empty() =~= out);
}

/// A stream holding `payload` as one compressed block of `block_size`
/// bytes, then the terminal block.
pub open spec fn compressed_stream(payload: Seq<u8>, block_size: u32, flags: u8) -> Seq<u8> {
    seq![AZO_VERSION, flags] + block_header(block_size, payload.len() as u32) + payload
        + block_header(0, 0)
}

/// Law: a compressed block is decoded, and its output goes through the x86
/// filter when the flags ask for it, as a stored block's does; the result
/// is the CRC-32 of what was written, or the error that stopped the decode
/// (with nothing written).
#[verifier::spinoff_prover]
#[verifier::rlimit(40)]
pub proof fn lemma_compressed_stream(payload: Seq<u8>, block_size: u32, flags: u8)
    requires
        1 <= payload.len() < 0x1_0000_0000,
        1 <= block_size <= MAX_BLOCK_SIZE,
        payload.len() != block_size,
    ensures
        ({
            let s = compressed_stream(payload, block_size, flags);
            match decode_block(payload, block_size as nat) {
                Ok(decoded) => {
                    let out = if flags & 1 != 0 {
                        x86_unfilter(decoded)
                    } else {
                        decoded
                    };
                    azo_extract(s, s.len() as u64, None) == (out, Ok::<u32, AzoError>(crc32(out)))
                },
                Err(e) => azo_extract(s, s.len() as u64, None) == (
                    Seq::<u8>::empty(),
                    Err::<u32, AzoError>(e),
                ),
            }
        }),
{
    reveal(block_at);
    let n = payload.len() as u32;
    let s = compressed_stream(payload, block_size, flags);
    assert(s.take(s.len() as int) =~= s);
    assert(s.subrange(2, 6) =~= be_bytes(block_size));
    assert(s.subrange(6, 10) =~= be_bytes(n));
    assert(s.subrange(10, 14) =~= be_bytes(block_size ^ n));
    lemma_be_roundtrip(s, 2, block_size);
    lemma_be_roundtrip(s, 6, n);
    lemma_be_roundtrip(s, 10, block_size ^ n);
    let end: int = 14 + payload.len() as int;
    assert(s.subrange(14, end) =~= payload);
    assert(s.subrange(end, end + 4) =~= be_bytes(0));
    assert(s.subrange(end + 4, end + 8) =~= be_bytes(0));
    assert(s.subrange(end + 8, end + 12) =~= be_bytes(0u32 ^ 0u32));
    lemma_be_roundtrip(s, end, 0);
    lemma_be_roundtrip(s, end + 4, 0);
    assert(0u32 ^ 0u32 == 0u32) by (bit_vector);
    lemma_be_roundtrip(s, end + 8, 0);
    assert(n as int == payload.len());
    assert(block_output(payload, block_size, n) == decode_block(payload, block_size as nat));
    assert(extract_blocks(s, end, flags & 1 != 0, None, 0) == (Seq::<u8>::empty(), None::<AzoError>));
    if let Ok(decoded) = decode_block(payload, block_size as nat) {
        let out = if flags & 1 != 0 {
            x86_unfilter(decoded)
        } else {
            decoded
        };
        assert(out + Seq::<u8>::empty() =~= out);
    }
}

/// Law: a stream of only the terminal block writes nothing and yields the
/// CRC-32 of nothing, 0.
pub proof fn lemma_empty_stream(flags: u8)
    ensures
        ({
            let s = seq![AZO_VERSION, flags] + block_header(0, 0);
            azo_extract(s, s.len() as u64, None) == (Seq::<u8>::empty(), Ok::<u32, AzoError>(0))
        }),
{
    reveal(block_at);
    let s = seq![AZO_VERSION, flags] + block_header(0, 0);
    assert(s.take(s.len() as int) =~= s);
    assert(s.subrange(2, 6) =~= be_bytes(0));
    assert(s.subrange(6, 10) =~= be_bytes(0));
    assert(s.subrange(10, 14) =~= be_bytes(0u32 ^ 0u32));
    lemma_be_roundtrip(s, 2, 0);
    lemma_be_roundtrip(s, 6, 0);
    assert(0u32 ^ 0u32 == 0u32) by (bit_vector);
    lemma_be_roundtrip(s, 10, 0);
    assert(crc32(Seq::<u8>::empty()) == 0) by {
        assert(0xFFFF_FFFFu32 ^ 0xFFFF_FFFFu32 == 0u32) by (bit_vector);
    }
}

} // verus!
