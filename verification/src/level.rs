//! Compression levels: named presets and the numeric escape.

use vstd::prelude::*;
use vstd::std_specs::convert::FromSpecImpl;
use vstd::std_specs::convert::TryFromSpecImpl;

verus! {

/// The largest numeric level that exists.
pub const MAX_LEVEL: u8 = 22;

/// A numeric compression level between 0 and [`MAX_LEVEL`].
#[derive(Debug, Copy, Clone, Hash, PartialEq, Eq, Structural, PartialOrd, Ord)]
pub struct ZstdLevel(u8);

/// Why a number was refused as a compression level.
#[derive(Debug, Copy, Clone, Hash, PartialEq, Eq, Structural)]
pub enum LevelError {
    /// The number is below 0 or above [`MAX_LEVEL`].
    OutOfRange,
}

impl ZstdLevel {
    /// The level as a number.
    pub closed spec fn value(self) -> u8 {
        self.0
    }

    #[verifier::type_invariant]
    spec fn in_range(self) -> bool {
        self.0 <= MAX_LEVEL
    }

    /// Two levels with the same number are the same level.
    pub proof fn lemma_value_injective(self, other: ZstdLevel)
        requires
            self.value() == other.value(),
        ensures
            self == other,
    {
    }

    /// The level with the number `value`.
    pub closed spec fn with_value(value: u8) -> ZstdLevel {
        ZstdLevel(value)
    }

    /// The level with a number has that number.
    pub proof fn lemma_with_value(value: u8)
        ensures
            ZstdLevel::with_value(value).value() == value,
    {
    }

    /// The level for the number `value`: the level with that number where
    /// it is between 0 and [`MAX_LEVEL`], else a refusal.
    pub open spec fn checked(value: int) -> Result<ZstdLevel, LevelError> {
        if 0 <= value <= MAX_LEVEL {
            Ok(ZstdLevel::with_value(value as u8))
        } else {
            Err(LevelError::OutOfRange)
        }
    }

    /// Makes a level of `value`, or refuses it when it is above [`MAX_LEVEL`].
    pub fn new(value: u8) -> (r: Result<ZstdLevel, LevelError>)
        ensures
            r == ZstdLevel::checked(value as int),
            value <= MAX_LEVEL ==> r.is_ok() && r.unwrap().value() == value,
            value > MAX_LEVEL ==> r == Err::<ZstdLevel, LevelError>(LevelError::OutOfRange),
    {
        if value <= MAX_LEVEL {
            Ok(ZstdLevel(value))
        } else {
            Err(LevelError::OutOfRange)
        }
    }

    /// The level as a number.
    pub fn get(self) -> (r: u8)
        ensures
            r == self.value(),
            r <= MAX_LEVEL,
    {
        proof {
            use_type_invariant(self);
        }
        self.0
    }
}

/// The compression mode decides between speed and ratio: a faster mode
/// compresses less.
#[derive(Debug, Copy, Clone, Hash, PartialEq, Eq, Structural)]
pub enum CompressionLevel {
    /// Wraps the data in a frame without compressing it.
    Uncompressed,
    /// Roughly level 1.
    Fastest,
    /// Roughly level 3, the level of the reference compressor when none is
    /// given.
    Default,
    /// Roughly level 7.
    Better,
    /// Roughly level 11.
    Best,
    /// A numeric level between 0 and [`MAX_LEVEL`].
    Other(ZstdLevel),
}

/// The number of the level that `level` stands for.
pub open spec fn level_number(level: CompressionLevel) -> u8 {
    match level {
        CompressionLevel::Uncompressed => 0,
        CompressionLevel::Fastest => 1,
        CompressionLevel::Default => 3,
        CompressionLevel::Better => 7,
        CompressionLevel::Best => 11,
        CompressionLevel::Other(zl) => zl.value(),
    }
}

/// The preset with the number `zl`, or the numeric level itself where no
/// preset has that number.
pub open spec fn level_of_number(zl: ZstdLevel) -> CompressionLevel {
    if zl.value() == 0 {
        CompressionLevel::Uncompressed
    } else if zl.value() == 1 {
        CompressionLevel::Fastest
    } else if zl.value() == 3 {
        CompressionLevel::Default
    } else if zl.value() == 7 {
        CompressionLevel::Better
    } else if zl.value() == 11 {
        CompressionLevel::Best
    } else {
        CompressionLevel::Other(zl)
    }
}

impl From<CompressionLevel> for ZstdLevel {
    fn from(val: CompressionLevel) -> (r: Self) {
        match val {
            CompressionLevel::Uncompressed => ZstdLevel(0),
            CompressionLevel::Fastest => ZstdLevel(1),
            CompressionLevel::Default => ZstdLevel(3),
            CompressionLevel::Better => ZstdLevel(7),
            CompressionLevel::Best => ZstdLevel(11),
            CompressionLevel::Other(zl) => zl,
        }
    }
}

impl FromSpecImpl<CompressionLevel> for ZstdLevel {
    open spec fn obeys_from_spec() -> bool {
        true
    }

    open spec fn from_spec(val: CompressionLevel) -> Self {
        zstd_level_of(val)
    }
}

/// The numeric level with the number of `level`.
pub closed spec fn zstd_level_of(level: CompressionLevel) -> ZstdLevel {
    match level {
        CompressionLevel::Uncompressed => ZstdLevel(0),
        CompressionLevel::Fastest => ZstdLevel(1),
        CompressionLevel::Default => ZstdLevel(3),
        CompressionLevel::Better => ZstdLevel(7),
        CompressionLevel::Best => ZstdLevel(11),
        CompressionLevel::Other(zl) => zl,
    }
}

/// The numeric level of a compression level has that level's number.
pub proof fn lemma_zstd_level_of_value(level: CompressionLevel)
    ensures
        zstd_level_of(level).value() == level_number(level),
{
}

impl From<ZstdLevel> for CompressionLevel {
    fn from(val: ZstdLevel) -> (r: Self) {
        match val.0 {
            0 => CompressionLevel::Uncompressed,
            1 => CompressionLevel::Fastest,
            3 => CompressionLevel::Default,
            7 => CompressionLevel::Better,
            11 => CompressionLevel::Best,
            _ => CompressionLevel::Other(val),
        }
    }
}

impl FromSpecImpl<ZstdLevel> for CompressionLevel {
    open spec fn obeys_from_spec() -> bool {
        true
    }

    open spec fn from_spec(val: ZstdLevel) -> Self {
        level_of_number(val)
    }
}

impl CompressionLevel {
    /// The level in canonical form: a numeric level with the number of a
    /// preset is that preset, every other level is itself.
    pub open spec fn normalized(self) -> CompressionLevel {
        match self {
            CompressionLevel::Other(zl) => level_of_number(zl),
            _ => self,
        }
    }

    /// Whether the level is in canonical form.
    pub open spec fn is_normal(self) -> bool {
        match self {
            CompressionLevel::Other(zl) => zl.value() != 0 && zl.value() != 1 && zl.value() != 3
                && zl.value() != 7 && zl.value() != 11,
            _ => true,
        }
    }

    /// Brings the level into canonical form.
    pub fn normalize_mut(&mut self)
        ensures
            *final(self) == old(self).normalized(),
    {
        if let CompressionLevel::Other(zl) = *self {
            *self = CompressionLevel::from(zl);
        }
    }

    /// The level in canonical form.
    pub fn normalize(&self) -> (r: Self)
        ensures
            r == self.normalized(),
    {
        let mut out = *self;
        out.normalize_mut();
        out
    }
}

/// Normalizing gives a canonical level, changes nothing on one that is
/// canonical already (so it is idempotent), and keeps the level's number.
pub proof fn lemma_normalize_idempotent(level: CompressionLevel)
    ensures
        level.normalized().is_normal(),
        level.is_normal() ==> level.normalized() == level,
        level.normalized().normalized() == level.normalized(),
        level_number(level.normalized()) == level_number(level),
{
}

impl TryFrom<u8> for ZstdLevel {
    type Error = LevelError;

    fn try_from(val: u8) -> (r: Result<ZstdLevel, LevelError>) {
        if val <= MAX_LEVEL {
            Ok(ZstdLevel(val as u8))
        } else {
            Err(LevelError::OutOfRange)
        }
    }
}

impl TryFromSpecImpl<u8> for ZstdLevel {
    open spec fn obeys_try_from_spec() -> bool {
        true
    }

    open spec fn try_from_spec(val: u8) -> Result<ZstdLevel, LevelError> {
        ZstdLevel::checked(val as int)
    }
}

impl From<ZstdLevel> for u8 {
    fn from(val: ZstdLevel) -> (r: u8) {
        val.0 as u8
    }
}

impl FromSpecImpl<ZstdLevel> for u8 {
    open spec fn obeys_from_spec() -> bool {
        true
    }

    open spec fn from_spec(val: ZstdLevel) -> u8 {
        val.value() as u8
    }
}

impl TryFrom<u16> for ZstdLevel {
    type Error = LevelError;

    fn try_from(val: u16) -> (r: Result<ZstdLevel, LevelError>) {
        if val <= MAX_LEVEL as u16 {
            Ok(ZstdLevel(val as u8))
        } else {
            Err(LevelError::OutOfRange)
        }
    }
}

impl TryFromSpecImpl<u16> for ZstdLevel {
    open spec fn obeys_try_from_spec() -> bool {
        true
    }

    open spec fn try_from_spec(val: u16) -> Result<ZstdLevel, LevelError> {
        ZstdLevel::checked(val as int)
    }
}

impl From<ZstdLevel> for u16 {
    fn from(val: ZstdLevel) -> (r: u16) {
        val.0 as u16
    }
}

impl FromSpecImpl<ZstdLevel> for u16 {
    open spec fn obeys_from_spec() -> bool {
        true
    }

    open spec fn from_spec(val: ZstdLevel) -> u16 {
        val.value() as u16
    }
}

impl TryFrom<u32> for ZstdLevel {
    type Error = LevelError;

    fn try_from(val: u32) -> (r: Result<ZstdLevel, LevelError>) {
        if val <= MAX_LEVEL as u32 {
            Ok(ZstdLevel(val as u8))
        } else {
            Err(LevelError::OutOfRange)
        }
    }
}

impl TryFromSpecImpl<u32> for ZstdLevel {
    open spec fn obeys_try_from_spec() -> bool {
        true
    }

    open spec fn try_from_spec(val: u32) -> Result<ZstdLevel, LevelError> {
        ZstdLevel::checked(val as int)
    }
}

impl From<ZstdLevel> for u32 {
    fn from(val: ZstdLevel) -> (r: u32) {
        val.0 as u32
    }
}

impl FromSpecImpl<ZstdLevel> for u32 {
    open spec fn obeys_from_spec() -> bool {
        true
    }

    open spec fn from_spec(val: ZstdLevel) -> u32 {
        val.value() as u32
    }
}

impl TryFrom<u64> for ZstdLevel {
    type Error = LevelError;

    fn try_from(val: u64) -> (r: Result<ZstdLevel, LevelError>) {
        if val <= MAX_LEVEL as u64 {
            Ok(ZstdLevel(val as u8))
        } else {
            Err(LevelError::OutOfRange)
        }
    }
}

impl TryFromSpecImpl<u64> for ZstdLevel {
    open spec fn obeys_try_from_spec() -> bool {
        true
    }

    open spec fn try_from_spec(val: u64) -> Result<ZstdLevel, LevelError> {
        ZstdLevel::checked(val as int)
    }
}

impl From<ZstdLevel> for u64 {
    fn from(val: ZstdLevel) -> (r: u64) {
        val.0 as u64
    }
}

impl FromSpecImpl<ZstdLevel> for u64 {
    open spec fn obeys_from_spec() -> bool {
        true
    }

    open spec fn from_spec(val: ZstdLevel) -> u64 {
        val.value() as u64
    }
}

impl TryFrom<u128> for ZstdLevel {
    type Error = LevelError;

    fn try_from(val: u128) -> (r: Result<ZstdLevel, LevelError>) {
        if val <= MAX_LEVEL as u128 {
            Ok(ZstdLevel(val as u8))
        } else {
            Err(LevelError::OutOfRange)
        }
    }
}

impl TryFromSpecImpl<u128> for ZstdLevel {
    open spec fn obeys_try_from_spec() -> bool {
        true
    }

    open spec fn try_from_spec(val: u128) -> Result<ZstdLevel, LevelError> {
        ZstdLevel::checked(val as int)
    }
}

impl From<ZstdLevel> for u128 {
    fn from(val: ZstdLevel) -> (r: u128) {
        val.0 as u128
    }
}

impl FromSpecImpl<ZstdLevel> for u128 {
    open spec fn obeys_from_spec() -> bool {
        true
    }

    open spec fn from_spec(val: ZstdLevel) -> u128 {
        val.value() as u128
    }
}

impl TryFrom<usize> for ZstdLevel {
    type Error = LevelError;

    fn try_from(val: usize) -> (r: Result<ZstdLevel, LevelError>) {
        if val <= MAX_LEVEL as usize {
            Ok(ZstdLevel(val as u8))
        } else {
            Err(LevelError::OutOfRange)
        }
    }
}

impl TryFromSpecImpl<usize> for ZstdLevel {
    open spec fn obeys_try_from_spec() -> bool {
        true
    }

    open spec fn try_from_spec(val: usize) -> Result<ZstdLevel, LevelError> {
        ZstdLevel::checked(val as int)
    }
}

impl From<ZstdLevel> for usize {
    fn from(val: ZstdLevel) -> (r: usize) {
        val.0 as usize
    }
}

impl FromSpecImpl<ZstdLevel> for usize {
    open spec fn obeys_from_spec() -> bool {
        true
    }

    open spec fn from_spec(val: ZstdLevel) -> usize {
        val.value() as usize
    }
}

impl TryFrom<i8> for ZstdLevel {
    type Error = LevelError;

    fn try_from(val: i8) -> (r: Result<ZstdLevel, LevelError>) {
        if 0 <= val && val <= MAX_LEVEL as i8 {
            Ok(ZstdLevel(val as u8))
        } else {
            Err(LevelError::OutOfRange)
        }
    }
}

impl TryFromSpecImpl<i8> for ZstdLevel {
    open spec fn obeys_try_from_spec() -> bool {
        true
    }

    open spec fn try_from_spec(val: i8) -> Result<ZstdLevel, LevelError> {
        ZstdLevel::checked(val as int)
    }
}

impl From<ZstdLevel> for i8 {
    fn from(val: ZstdLevel) -> (r: i8) {
        val.0 as i8
    }
}

impl FromSpecImpl<ZstdLevel> for i8 {
    open spec fn obeys_from_spec() -> bool {
        true
    }

    open spec fn from_spec(val: ZstdLevel) -> i8 {
        val.value() as i8
    }
}

impl TryFrom<i16> for ZstdLevel {
    type Error = LevelError;

    fn try_from(val: i16) -> (r: Result<ZstdLevel, LevelError>) {
        if 0 <= val && val <= MAX_LEVEL as i16 {
            Ok(ZstdLevel(val as u8))
        } else {
            Err(LevelError::OutOfRange)
        }
    }
}

impl TryFromSpecImpl<i16> for ZstdLevel {
    open spec fn obeys_try_from_spec() -> bool {
        true
    }

    open spec fn try_from_spec(val: i16) -> Result<ZstdLevel, LevelError> {
        ZstdLevel::checked(val as int)
    }
}

impl From<ZstdLevel> for i16 {
    fn from(val: ZstdLevel) -> (r: i16) {
        val.0 as i16
    }
}

impl FromSpecImpl<ZstdLevel> for i16 {
    open spec fn obeys_from_spec() -> bool {
        true
    }

    open spec fn from_spec(val: ZstdLevel) -> i16 {
        val.value() as i16
    }
}

impl TryFrom<i32> for ZstdLevel {
    type Error = LevelError;

    fn try_from(val: i32) -> (r: Result<ZstdLevel, LevelError>) {
        if 0 <= val && val <= MAX_LEVEL as i32 {
            Ok(ZstdLevel(val as u8))
        } else {
            Err(LevelError::OutOfRange)
        }
    }
}

impl TryFromSpecImpl<i32> for ZstdLevel {
    open spec fn obeys_try_from_spec() -> bool {
        true
    }

    open spec fn try_from_spec(val: i32) -> Result<ZstdLevel, LevelError> {
        ZstdLevel::checked(val as int)
    }
}

impl From<ZstdLevel> for i32 {
    fn from(val: ZstdLevel) -> (r: i32) {
        val.0 as i32
    }
}

impl FromSpecImpl<ZstdLevel> for i32 {
    open spec fn obeys_from_spec() -> bool {
        true
    }

    open spec fn from_spec(val: ZstdLevel) -> i32 {
        val.value() as i32
    }
}

impl TryFrom<i64> for ZstdLevel {
    type Error = LevelError;

    fn try_from(val: i64) -> (r: Result<ZstdLevel, LevelError>) {
        if 0 <= val && val <= MAX_LEVEL as i64 {
            Ok(ZstdLevel(val as u8))
        } else {
            Err(LevelError::OutOfRange)
        }
    }
}

impl TryFromSpecImpl<i64> for ZstdLevel {
    open spec fn obeys_try_from_spec() -> bool {
        true
    }

    open spec fn try_from_spec(val: i64) -> Result<ZstdLevel, LevelError> {
        ZstdLevel::checked(val as int)
    }
}

impl From<ZstdLevel> for i64 {
    fn from(val: ZstdLevel) -> (r: i64) {
        val.0 as i64
    }
}

impl FromSpecImpl<ZstdLevel> for i64 {
    open spec fn obeys_from_spec() -> bool {
        true
    }

    open spec fn from_spec(val: ZstdLevel) -> i64 {
        val.value() as i64
    }
}

impl TryFrom<i128> for ZstdLevel {
    type Error = LevelError;

    fn try_from(val: i128) -> (r: Result<ZstdLevel, LevelError>) {
        if 0 <= val && val <= MAX_LEVEL as i128 {
            Ok(ZstdLevel(val as u8))
        } else {
            Err(LevelError::OutOfRange)
        }
    }
}

impl TryFromSpecImpl<i128> for ZstdLevel {
    open spec fn obeys_try_from_spec() -> bool {
        true
    }

    open spec fn try_from_spec(val: i128) -> Result<ZstdLevel, LevelError> {
        ZstdLevel::checked(val as int)
    }
}

impl From<ZstdLevel> for i128 {
    fn from(val: ZstdLevel) -> (r: i128) {
        val.0 as i128
    }
}

impl FromSpecImpl<ZstdLevel> for i128 {
    open spec fn obeys_from_spec() -> bool {
        true
    }

    open spec fn from_spec(val: ZstdLevel) -> i128 {
        val.value() as i128
    }
}

impl TryFrom<isize> for ZstdLevel {
    type Error = LevelError;

    fn try_from(val: isize) -> (r: Result<ZstdLevel, LevelError>) {
        if 0 <= val && val <= MAX_LEVEL as isize {
            Ok(ZstdLevel(val as u8))
        } else {
            Err(LevelError::OutOfRange)
        }
    }
}

impl TryFromSpecImpl<isize> for ZstdLevel {
    open spec fn obeys_try_from_spec() -> bool {
        true
    }

    open spec fn try_from_spec(val: isize) -> Result<ZstdLevel, LevelError> {
        ZstdLevel::checked(val as int)
    }
}

impl From<ZstdLevel> for isize {
    fn from(val: ZstdLevel) -> (r: isize) {
        val.0 as isize
    }
}

impl FromSpecImpl<ZstdLevel> for isize {
    open spec fn obeys_from_spec() -> bool {
        true
    }

    open spec fn from_spec(val: ZstdLevel) -> isize {
        val.value() as isize
    }
}

} // verus!
