//! Errors of the decoder and their messages.
use vstd::prelude::*;
use vstd::string::*;

verus! {

/// Why a stream was rejected.
#[derive(Debug, Clone, Copy, PartialEq, Eq, Structural)]
pub enum AzoFailure {
    /// The reader held fewer bytes than the declared compressed size.
    TruncatedStream,
    /// The stream is shorter than its two-byte header.
    DataTooShort,
    /// The version byte is not 0x31.
    UnsupportedVersion(u8),
    /// Fewer than 12 bytes remain where a block header is due.
    TruncatedBlockHeader,
    /// A block header's check value is not the XOR of its two sizes.
    CheckValueMismatch,
    /// A non-terminal block declares no output.
    ZeroBlockSize,
    /// A non-terminal block declares no data.
    ZeroCompressedSize,
    /// A block declares more output than the per-block limit.
    BlockTooLarge(u32),
    /// The blocks together declare more output than `max_output`.
    OutputExceedsMax,
    /// A block's data runs past the end of the stream.
    TruncatedBlockData,
    /// A match reaches back before the start of its block.
    InvalidMatch { distance: u32, pos: usize },
    /// A compressed block has bytes its decoding never reached.
    TrailingBytes,
}

/// Errors returned by [`crate::extract_azo`].
#[derive(Debug, Clone, Copy, PartialEq, Eq, Structural)]
#[non_exhaustive]
pub enum AzoError {
    /// The stream is malformed, unsupported, or exceeds a safety limit.
    Failed(AzoFailure),
}

/// The character of decimal digit `d`.
pub open spec fn digit_char(d: int) -> char {
    (48 + d) as char
}

/// The decimal digits of `x`.
pub open spec fn decimal(x: nat) -> Seq<char>
    decreases x,
{
    if x < 10 {
        seq![digit_char(x as int)]
    } else {
        decimal(x / 10).push(digit_char((x % 10) as int))
    }
}

/// The text that describes a failure.
pub open spec fn failure_text(f: AzoFailure) -> Seq<char> {
    match f {
        AzoFailure::TruncatedStream => "truncated AZO stream"@,
        AzoFailure::DataTooShort => "data too short"@,
        AzoFailure::UnsupportedVersion(v) => "unsupported AZO version: "@ + decimal(v as nat),
        AzoFailure::TruncatedBlockHeader => "truncated block header"@,
        AzoFailure::CheckValueMismatch => "block check value mismatch"@,
        AzoFailure::ZeroBlockSize => "zero block size"@,
        AzoFailure::ZeroCompressedSize => "zero compressed size"@,
        AzoFailure::BlockTooLarge(s) => "block size "@ + decimal(s as nat) + " exceeds limit"@,
        AzoFailure::OutputExceedsMax => "output exceeds max_output"@,
        AzoFailure::TruncatedBlockData => "truncated block data"@,
        AzoFailure::InvalidMatch { distance, pos } => "invalid match: distance="@ + decimal(
            distance as nat,
        ) + ", pos="@ + decimal(pos as nat),
        AzoFailure::TrailingBytes => "trailing bytes in compressed block"@,
    }
}

/// The text of an error.
pub open spec fn error_text(e: AzoError) -> Seq<char> {
    match e {
        AzoError::Failed(f) => "AZO error: "@ + failure_text(f),
    }
}

fn digit_str(d: u64) -> (r: &'static str)
    requires
        d < 10,
    ensures
        r@ == seq![digit_char(d as int)],
{
    match d {
        0 => {
            proof {
                reveal_strlit("0");
            }
            "0"
        },
        1 => {
            proof {
                reveal_strlit("1");
            }
            "1"
        },
        2 => {
            proof {
                reveal_strlit("2");
            }
            "2"
        },
        3 => {
            proof {
                reveal_strlit("3");
            }
            "3"
        },
        4 => {
            proof {
                reveal_strlit("4");
            }
            "4"
        },
        5 => {
            proof {
                reveal_strlit("5");
            }
            "5"
        },
        6 => {
            proof {
                reveal_strlit("6");
            }
            "6"
        },
        7 => {
            proof {
                reveal_strlit("7");
            }
            "7"
        },
        8 => {
            proof {
                reveal_strlit("8");
            }
            "8"
        },
        _ => {
            proof {
                reveal_strlit("9");
            }
            "9"
        },
    }
}

/// Append the decimal digits of `x`.
fn push_decimal(s: &mut String, x: u64)
    ensures
        final(s)@ == old(s)@ + decimal(x as nat),
    decreases x,
{
    if x >= 10 {
        push_decimal(s, x / 10);
    }
    s.append(digit_str(x % 10));
    assert(final(s)@ =~= old(s)@ + decimal(x as nat)) by {
        if x >= 10 {
            assert(decimal(x as nat) == decimal((x / 10) as nat).push(digit_char((x % 10) as int)));
        }
    };
}

impl AzoFailure {
    /// The text that describes the failure.
    pub fn text(&self) -> (r: String)
        ensures
            r@ == failure_text(*self),
    {
        match *self {
            AzoFailure::TruncatedStream => String::from_str("truncated AZO stream"),
            AzoFailure::DataTooShort => String::from_str("data too short"),
            AzoFailure::UnsupportedVersion(v) => {
                let mut s = String::from_str("unsupported AZO version: ");
                push_decimal(&mut s, v as u64);
                s
            },
            AzoFailure::TruncatedBlockHeader => String::from_str("truncated block header"),
            AzoFailure::CheckValueMismatch => String::from_str("block check value mismatch"),
            AzoFailure::ZeroBlockSize => String::from_str("zero block size"),
            AzoFailure::ZeroCompressedSize => String::from_str("zero compressed size"),
            AzoFailure::BlockTooLarge(size) => {
                let mut s = String::from_str("block size ");
                push_decimal(&mut s, size as u64);
                s.append(" exceeds limit");
                s
            },
            AzoFailure::OutputExceedsMax => String::from_str("output exceeds max_output"),
            AzoFailure::TruncatedBlockData => String::from_str("truncated block data"),
            AzoFailure::InvalidMatch { distance, pos } => {
                let mut s = String::from_str("invalid match: distance=");
                push_decimal(&mut s, distance as u64);
                s.append(", pos=");
                push_decimal(&mut s, pos as u64);
                s
            },
            AzoFailure::TrailingBytes => String::from_str("trailing bytes in compressed block"),
        }
    }
}

impl AzoError {
    /// The error's message, as it would be displayed.
    pub fn message(&self) -> (r: String)
        ensures
            r@ == error_text(*self),
    {
        match self {
            AzoError::Failed(f) => {
                let mut s = String::from_str("AZO error: ");
                let t = f.text();
                s.append(t.as_str());
                s
            },
        }
    }
}

} // verus!
