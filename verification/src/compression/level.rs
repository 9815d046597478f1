//! Compression levels.

use crate::decimal;
use crate::decimal::append_signed_decimal;
use vstd::prelude::*;
use vstd::string::*;

verus! {

/// A compression level is outside of the range that its codec has.
#[derive(Debug, PartialEq, Eq, Structural, Clone, Copy)]
pub struct LevelError {
    pub level: i64,
    pub minimum: i64,
    pub maximum: i64,
}

impl LevelError {
    /// The message for the error.
    pub open spec fn message(self) -> Seq<char> {
        "Invalid argument error: compression level "@ + decimal::signed_decimal(self.level as int)
            + " out of range "@ + decimal::signed_decimal(self.minimum as int) + "..="@
            + decimal::signed_decimal(self.maximum as int)
    }

    /// Returns the message for the error
    pub fn to_string(&self) -> (text: String)
        ensures
            text@ == self.message(),
    {
        let mut text: String = String::new();
        text.append("Invalid argument error: compression level ");
        append_signed_decimal(&mut text, self.level);
        text.append(" out of range ");
        append_signed_decimal(&mut text, self.minimum);
        text.append("..=");
        append_signed_decimal(&mut text, self.maximum);
        text
    }
}

/// Defines a valid range of compression levels for a codec.
trait CompressionLevel {
    const MINIMUM_LEVEL: i64;

    const MAXIMUM_LEVEL: i64;

    fn is_valid_level(level: i64) -> (r: Result<(), LevelError>)
        ensures
            r == if Self::MINIMUM_LEVEL <= level <= Self::MAXIMUM_LEVEL {
                Ok::<(), LevelError>(())
            } else {
                Err(
                    LevelError {
                        level,
                        minimum: Self::MINIMUM_LEVEL,
                        maximum: Self::MAXIMUM_LEVEL,
                    },
                )
            },
    {
        if Self::MINIMUM_LEVEL <= level && level <= Self::MAXIMUM_LEVEL {
            Ok(())
        } else {
            Err(
                LevelError { level, minimum: Self::MINIMUM_LEVEL, maximum: Self::MAXIMUM_LEVEL },
            )
        }
    }
}

/// Compression level for [`CompressionCodec::Deflate`].
///
/// Range `0..=9`. Higher values produce smaller output at the cost of speed.
/// `0` disables compression. The default of `6` matches the `flate2` /
/// `miniz_oxide` backend default.
///
/// [`CompressionCodec::Deflate`]: crate::compression::codec::CompressionCodec::Deflate
#[derive(Debug, Eq, PartialEq, Structural, Hash, Clone, Copy)]
pub struct DeflateLevel(u32);

impl CompressionLevel for DeflateLevel {
    const MINIMUM_LEVEL: i64 = 0;

    const MAXIMUM_LEVEL: i64 = 9;
}

impl Default for DeflateLevel {
    fn default() -> (level: Self)
        ensures
            level.level() == 6,
    {
        Self(6)
    }
}

impl DeflateLevel {
    /// The raw level value.
    pub closed spec fn level(self) -> u32 {
        self.0
    }

    #[verifier::type_invariant]
    spec fn in_range(self) -> bool {
        0 <= self.0 <= 9
    }

    /// Try to construct a [`DeflateLevel`] from a raw `u32` in `0..=9`.
    pub fn try_new(level: u32) -> (r: Result<Self, LevelError>)
        ensures
            match r {
                Ok(valid) => 0 <= level <= 9 && valid.level() == level,
                Err(error) => level > 9 && error == (LevelError {
                    level: level as i64,
                    minimum: 0,
                    maximum: 9,
                }),
            },
    {
        match Self::is_valid_level(level as i64) {
            Ok(()) => Ok(Self(level)),
            Err(error) => Err(error),
        }
    }

    /// Returns the raw level value.
    pub fn compression_level(&self) -> (level: u32)
        ensures
            level == self.level(),
            0 <= level <= 9,
    {
        proof {
            use_type_invariant(self);
        }
        self.0
    }
}

/// Compression level for [`CompressionCodec::ZStandard`].
///
/// Range `1..=22`. The default of `3` matches the `zstd` library default.
///
/// [`CompressionCodec::ZStandard`]: crate::compression::codec::CompressionCodec::ZStandard
#[derive(Debug, Eq, PartialEq, Structural, Hash, Clone, Copy)]
pub struct ZstdLevel(i32);

impl CompressionLevel for ZstdLevel {
    const MINIMUM_LEVEL: i64 = 1;

    const MAXIMUM_LEVEL: i64 = 22;
}

impl Default for ZstdLevel {
    fn default() -> (level: Self)
        ensures
            level.level() == 3,
    {
        Self(3)
    }
}

impl ZstdLevel {
    /// The raw level value.
    pub closed spec fn level(self) -> i32 {
        self.0
    }

    #[verifier::type_invariant]
    spec fn in_range(self) -> bool {
        1 <= self.0 <= 22
    }

    /// Try to construct a [`ZstdLevel`] from a raw `i32` in `1..=22`.
    pub fn try_new(level: i32) -> (r: Result<Self, LevelError>)
        ensures
            match r {
                Ok(valid) => 1 <= level <= 22 && valid.level() == level,
                Err(error) => !(1 <= level <= 22) && error == (LevelError {
                    level: level as i64,
                    minimum: 1,
                    maximum: 22,
                }),
            },
    {
        match Self::is_valid_level(level as i64) {
            Ok(()) => Ok(Self(level)),
            Err(error) => Err(error),
        }
    }

    /// Returns the raw level value.
    pub fn compression_level(&self) -> (level: i32)
        ensures
            level == self.level(),
            1 <= level <= 22,
    {
        proof {
            use_type_invariant(self);
        }
        self.0
    }
}

/// Compression level for [`CompressionCodec::Bzip2`].
///
/// Range `1..=9`. Each step represents a 100 KiB block-size increment.
/// The default of `9` matches Avro Java (which uses
/// `BZip2CompressorOutputStream`'s no-arg constructor = `MAX_BLOCKSIZE`)
/// and the `bzip2` CLI's default of `-9`.
///
/// [`CompressionCodec::Bzip2`]: crate::compression::codec::CompressionCodec::Bzip2
#[derive(Debug, Eq, PartialEq, Structural, Hash, Clone, Copy)]
pub struct Bzip2Level(u32);

impl CompressionLevel for Bzip2Level {
    const MINIMUM_LEVEL: i64 = 1;

    const MAXIMUM_LEVEL: i64 = 9;
}

impl Default for Bzip2Level {
    fn default() -> (level: Self)
        ensures
            level.level() == 9,
    {
        Self(9)
    }
}

impl Bzip2Level {
    /// The raw level value.
    pub closed spec fn level(self) -> u32 {
        self.0
    }

    #[verifier::type_invariant]
    spec fn in_range(self) -> bool {
        1 <= self.0 <= 9
    }

    /// Try to construct a [`Bzip2Level`] from a raw `u32` in `1..=9`.
    pub fn try_new(level: u32) -> (r: Result<Self, LevelError>)
        ensures
            match r {
                Ok(valid) => 1 <= level <= 9 && valid.level() == level,
                Err(error) => !(1 <= level <= 9) && error == (LevelError {
                    level: level as i64,
                    minimum: 1,
                    maximum: 9,
                }),
            },
    {
        match Self::is_valid_level(level as i64) {
            Ok(()) => Ok(Self(level)),
            Err(error) => Err(error),
        }
    }

    /// Returns the raw level value.
    pub fn compression_level(&self) -> (level: u32)
        ensures
            level == self.level(),
            1 <= level <= 9,
    {
        proof {
            use_type_invariant(self);
        }
        self.0
    }
}

/// Compression level for [`CompressionCodec::Xz`].
///
/// Range `0..=9`. The default of `6` matches the `xz` / `liblzma` default.
///
/// [`CompressionCodec::Xz`]: crate::compression::codec::CompressionCodec::Xz
#[derive(Debug, Eq, PartialEq, Structural, Hash, Clone, Copy)]
pub struct XzLevel(u32);

impl CompressionLevel for XzLevel {
    const MINIMUM_LEVEL: i64 = 0;

    const MAXIMUM_LEVEL: i64 = 9;
}

impl Default for XzLevel {
    fn default() -> (level: Self)
        ensures
            level.level() == 6,
    {
        Self(6)
    }
}

impl XzLevel {
    /// The raw level value.
    pub closed spec fn level(self) -> u32 {
        self.0
    }

    #[verifier::type_invariant]
    spec fn in_range(self) -> bool {
        0 <= self.0 <= 9
    }

    /// Try to construct an [`XzLevel`] from a raw `u32` in `0..=9`.
    pub fn try_new(level: u32) -> (r: Result<Self, LevelError>)
        ensures
            match r {
                Ok(valid) => 0 <= level <= 9 && valid.level() == level,
                Err(error) => level > 9 && error == (LevelError {
                    level: level as i64,
                    minimum: 0,
                    maximum: 9,
                }),
            },
    {
        match Self::is_valid_level(level as i64) {
            Ok(()) => Ok(Self(level)),
            Err(error) => Err(error),
        }
    }

    /// Returns the raw level value.
    pub fn compression_level(&self) -> (level: u32)
        ensures
            level == self.level(),
            0 <= level <= 9,
    {
        proof {
            use_type_invariant(self);
        }
        self.0
    }
}

} // verus!
