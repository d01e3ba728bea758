//! Block compression: the algorithms an SSTable can name in its footer, and the
//! calls into zstd.

use vstd::prelude::*;
use vstd::string::StringExecFns;

use crate::error::DbError;

verus! {

/// Supported compression algorithms for SSTable blocks.
#[derive(Debug, Clone, Copy, PartialEq, Eq, Structural)]
pub enum CompressionType {
    /// No compression. Fast but uses more disk space.
    Uncompressed,
    /// Snappy compression (not implemented: building a block with it fails).
    Snappy,
    /// Zstd compression. Good balance of speed and high compression ratio.
    Zstd,
}

/// The byte an SSTable footer records for each algorithm.
pub open spec fn compression_byte(c: CompressionType) -> u8 {
    match c {
        CompressionType::Uncompressed => 0,
        CompressionType::Snappy => 1,
        CompressionType::Zstd => 2,
    }
}

/// The algorithm a footer byte names, if any.
pub open spec fn compression_of_byte(b: u8) -> Option<CompressionType> {
    if b == 0 {
        Some(CompressionType::Uncompressed)
    } else if b == 1 {
        Some(CompressionType::Snappy)
    } else if b == 2 {
        Some(CompressionType::Zstd)
    } else {
        None
    }
}

/// The decimal digits of `n` as characters.
pub open spec fn decimal_chars(n: nat) -> Seq<char>
    decreases n,
{
    if n < 10 {
        seq![digit_char(n)]
    } else {
        decimal_chars(n / 10) + seq![digit_char(n % 10)]
    }
}

/// The character of a digit below ten.
pub open spec fn digit_char(d: nat) -> char {
    if d == 0 { '0' } else if d == 1 { '1' } else if d == 2 { '2' } else if d == 3 { '3' }
    else if d == 4 { '4' } else if d == 5 { '5' } else if d == 6 { '6' } else if d == 7 { '7' }
    else if d == 8 { '8' } else { '9' }
}

fn append_digit(s: &mut String, d: u64)
    requires
        d < 10,
    ensures
        final(s)@ == old(s)@ + seq![digit_char(d as nat)],
{
    let t = if d == 0 { "0" } else if d == 1 { "1" } else if d == 2 { "2" } else if d == 3 { "3" }
    else if d == 4 { "4" } else if d == 5 { "5" } else if d == 6 { "6" } else if d == 7 { "7" }
    else if d == 8 { "8" } else { "9" };
    proof {
        reveal_strlit("0");
        reveal_strlit("1");
        reveal_strlit("2");
        reveal_strlit("3");
        reveal_strlit("4");
        reveal_strlit("5");
        reveal_strlit("6");
        reveal_strlit("7");
        reveal_strlit("8");
        reveal_strlit("9");
    }
    s.append(t);
    assert(t@ =~= seq![digit_char(d as nat)]);
}

/// Appends the decimal digits of `n`.
pub fn append_decimal(s: &mut String, n: u64)
    ensures
        final(s)@ == old(s)@ + decimal_chars(n as nat),
    decreases n,
{
    if n < 10 {
        append_digit(s, n);
    } else {
        append_decimal(s, n / 10);
        append_digit(s, n % 10);
        assert(final(s)@ =~= old(s)@ + decimal_chars(n as nat)) by {
            assert(decimal_chars(n as nat) == decimal_chars((n / 10) as nat) + seq![digit_char((n % 10) as nat)]);
        }
    }
}

impl CompressionType {
    /// The byte the footer records for this algorithm.
    pub fn to_byte(self) -> (r: u8)
        ensures
            r == compression_byte(self),
    {
        match self {
            CompressionType::Uncompressed => 0,
            CompressionType::Snappy => 1,
            CompressionType::Zstd => 2,
        }
    }

    /// Parses a footer byte; an unknown byte is `Corruption` with the message
    /// `Unknown compression type: <byte>`.
    pub fn from_byte(val: u8) -> (r: Result<CompressionType, DbError>)
        ensures
            match r {
                Ok(c) => compression_of_byte(val) == Some(c),
                Err(e) => compression_of_byte(val) is None && (e matches DbError::Corruption(m) && m@
                    == "Unknown compression type: "@ + decimal_chars(val as nat)),
            },
    {
        if val == 0 {
            Ok(CompressionType::Uncompressed)
        } else if val == 1 {
            Ok(CompressionType::Snappy)
        } else if val == 2 {
            Ok(CompressionType::Zstd)
        } else {
            let mut m = String::from_str("Unknown compression type: ");
            append_decimal(&mut m, val as u64);
            Err(DbError::Corruption(m))
        }
    }
}

/// Reading back the byte of an algorithm gives the algorithm.
pub proof fn lemma_compression_byte_roundtrip(c: CompressionType)
    ensures
        compression_of_byte(compression_byte(c)) == Some(c),
{
}

/// What `zstd::encode_all` produces from the given bytes at the given level, or
/// `None` where it fails: a zstd frame, a function of the bytes and the level alone.
pub uninterp spec fn zstd_encoded(data: Seq<u8>, level: i32) -> Option<Seq<u8>>;

/// What `zstd::decode_all` produces from the given bytes, or `None` where it fails
/// (input that is not a valid zstd frame): a function of the bytes alone.
pub uninterp spec fn zstd_decoded(data: Seq<u8>) -> Option<Seq<u8>>;

/// `zstd::encode_all` over a byte slice. Claims that success and the compressed
/// bytes are `zstd_encoded` of the input and level, and that `zstd::decode_all`
/// gives the input back from those bytes (zstd is lossless; the crate's own tests
/// check `decode_all` after `encode_all` at many levels). The layout of the frame
/// is not stated.
#[verifier::external_body]
pub(crate) fn zstd_encode_all(data: &[u8], level: i32) -> (r: Result<Vec<u8>, std::io::Error>)
    ensures
        match r {
            Ok(v) => zstd_encoded(data@, level) == Some(v@) && zstd_decoded(v@) == Some(data@),
            Err(_) => zstd_encoded(data@, level) is None,
        },
{
    zstd::encode_all(data, level)
}

/// `zstd::decode_all` over a byte slice. Claims only that success and the
/// decompressed bytes are `zstd_decoded` of the input (input that is not a zstd
/// frame fails).
#[verifier::external_body]
pub(crate) fn zstd_decode_all(data: &[u8]) -> (r: Result<Vec<u8>, std::io::Error>)
    ensures
        match r {
            Ok(v) => zstd_decoded(data@) == Some(v@),
            Err(_) => zstd_decoded(data@) is None,
        },
{
    zstd::decode_all(data)
}

} // verus!
