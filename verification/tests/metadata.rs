use rollup_host::limits::{METADATA_SIZE, RAW_ROLLUP_ADDRESS_SIZE};
use rollup_host::metadata::RollupMetadata;

#[test]
fn level_is_big_endian_after_the_address() {
    let metadata = RollupMetadata {
        raw_rollup_address: [7; RAW_ROLLUP_ADDRESS_SIZE],
        origination_level: 0x0102_0304,
    };
    let bytes = metadata.to_bytes();
    assert_eq!(bytes.len(), METADATA_SIZE);
    assert_eq!(&bytes[..20], &[7u8; 20]);
    assert_eq!(&bytes[20..], &[1u8, 2, 3, 4]);
}

#[test]
fn bytes_round_trip() {
    let mut bytes = [0u8; 24];
    for (i, b) in bytes.iter_mut().enumerate() {
        *b = (i * 11 + 200) as u8;
    }
    let metadata = RollupMetadata::from_bytes(&bytes);
    assert_eq!(metadata.raw_rollup_address.as_slice(), &bytes[..20]);
    assert_eq!(
        metadata.origination_level,
        u32::from_be_bytes([bytes[20], bytes[21], bytes[22], bytes[23]])
    );
    assert_eq!(metadata.to_bytes(), bytes);
    assert_eq!(RollupMetadata::from(bytes), metadata);
}

#[test]
fn extreme_levels_round_trip() {
    for level in [0u32, 1, 255, 256, 0x7fff_ffff, 0x8000_0000, u32::MAX] {
        let metadata = RollupMetadata { raw_rollup_address: [0xff; 20], origination_level: level };
        let bytes = metadata.to_bytes();
        assert_eq!(&bytes[20..], &level.to_be_bytes());
        assert_eq!(RollupMetadata::from_bytes(&bytes), metadata);
    }
}
