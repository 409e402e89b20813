use zstd_encoder::level::CompressionLevel;
use zstd_encoder::level::LevelError;
use zstd_encoder::level::ZstdLevel;
use zstd_encoder::level::MAX_LEVEL;

#[test]
fn normalize_folds_numeric_presets() {
    let three = CompressionLevel::Other(ZstdLevel::new(3).unwrap());
    assert_eq!(three.normalize(), CompressionLevel::Default);
    let five = CompressionLevel::Other(ZstdLevel::new(5).unwrap());
    assert_eq!(five.normalize(), five);
}

#[test]
fn normalize_maps_each_preset_number() {
    let cases = [
        (0, CompressionLevel::Uncompressed),
        (1, CompressionLevel::Fastest),
        (3, CompressionLevel::Default),
        (7, CompressionLevel::Better),
        (11, CompressionLevel::Best),
    ];
    for (number, preset) in cases {
        let numeric = CompressionLevel::Other(ZstdLevel::new(number).unwrap());
        assert_eq!(numeric.normalize(), preset);
        assert_eq!(preset.normalize(), preset);
        assert_eq!(CompressionLevel::from(ZstdLevel::new(number).unwrap()), preset);
        assert_eq!(ZstdLevel::from(preset).get(), number);
    }
}

#[test]
fn normalize_is_idempotent_and_keeps_the_number() {
    for number in 0..=MAX_LEVEL {
        let level = CompressionLevel::Other(ZstdLevel::new(number).unwrap());
        let once = level.normalize();
        assert_eq!(once.normalize(), once);
        assert_eq!(ZstdLevel::from(once).get(), number);
        let mut changed = level;
        changed.normalize_mut();
        assert_eq!(changed, once);
        if ![0, 1, 3, 7, 11].contains(&number) {
            assert_eq!(once, level);
        }
    }
}

#[test]
fn levels_above_the_maximum_are_refused() {
    assert_eq!(ZstdLevel::new(22).unwrap().get(), 22);
    assert_eq!(ZstdLevel::new(23), Err(LevelError::OutOfRange));
    assert_eq!(ZstdLevel::new(255), Err(LevelError::OutOfRange));
}

#[test]
fn levels_are_ordered_by_number() {
    assert!(ZstdLevel::new(3).unwrap() < ZstdLevel::new(4).unwrap());
    assert_eq!(ZstdLevel::new(9).unwrap(), ZstdLevel::new(9).unwrap());
}

#[test]
fn levels_from_integers() {
    assert_eq!(ZstdLevel::try_from(22u8).unwrap().get(), 22);
    assert_eq!(ZstdLevel::try_from(23u8), Err(LevelError::OutOfRange));
    assert_eq!(ZstdLevel::try_from(7u16).unwrap().get(), 7);
    assert_eq!(ZstdLevel::try_from(256u16), Err(LevelError::OutOfRange));
    assert_eq!(ZstdLevel::try_from(0u32).unwrap().get(), 0);
    assert_eq!(ZstdLevel::try_from(278u32), Err(LevelError::OutOfRange));
    assert_eq!(ZstdLevel::try_from(11u64).unwrap().get(), 11);
    assert_eq!(ZstdLevel::try_from(u64::MAX), Err(LevelError::OutOfRange));
    assert_eq!(ZstdLevel::try_from(1u128).unwrap().get(), 1);
    assert_eq!(ZstdLevel::try_from(1u128 << 100), Err(LevelError::OutOfRange));
    assert_eq!(ZstdLevel::try_from(22usize).unwrap().get(), 22);
    assert_eq!(ZstdLevel::try_from(23usize), Err(LevelError::OutOfRange));
    assert_eq!(ZstdLevel::try_from(5i8).unwrap().get(), 5);
    assert_eq!(ZstdLevel::try_from(-1i8), Err(LevelError::OutOfRange));
    assert_eq!(ZstdLevel::try_from(5i16).unwrap().get(), 5);
    assert_eq!(ZstdLevel::try_from(-234i16), Err(LevelError::OutOfRange));
    assert_eq!(ZstdLevel::try_from(22i32).unwrap().get(), 22);
    assert_eq!(ZstdLevel::try_from(256i32), Err(LevelError::OutOfRange));
    assert_eq!(ZstdLevel::try_from(3i64).unwrap().get(), 3);
    assert_eq!(ZstdLevel::try_from(i64::MIN), Err(LevelError::OutOfRange));
    assert_eq!(ZstdLevel::try_from(3i128).unwrap().get(), 3);
    assert_eq!(ZstdLevel::try_from(i128::MAX), Err(LevelError::OutOfRange));
    assert_eq!(ZstdLevel::try_from(0isize).unwrap().get(), 0);
    assert_eq!(ZstdLevel::try_from(-1isize), Err(LevelError::OutOfRange));
}

#[test]
fn integers_from_levels() {
    let level = ZstdLevel::new(19).unwrap();
    assert_eq!(u8::from(level), 19);
    assert_eq!(u16::from(level), 19);
    assert_eq!(u32::from(level), 19);
    assert_eq!(u64::from(level), 19);
    assert_eq!(u128::from(level), 19);
    assert_eq!(usize::from(level), 19);
    assert_eq!(i8::from(level), 19);
    assert_eq!(i16::from(level), 19);
    assert_eq!(i32::from(level), 19);
    assert_eq!(i64::from(level), 19);
    assert_eq!(i128::from(level), 19);
    assert_eq!(isize::from(level), 19);
}
