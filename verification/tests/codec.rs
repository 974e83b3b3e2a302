use rand::Rng;
use rlnc_poc::blocks::{
    chunk_to_scalars, chunk_to_scalars_31, random_u8_slice, scalars_to_chunk, scalars_to_chunk_31,
};
use rlnc_poc::CodingError;

#[test]
fn test_roundtrip_chunk_conversion() {
    // Test with one chunk (63*32 bytes) and multiple chunks
    let test_sizes = vec![32, 63 * 32, 63 * 32 * 2, 63 * 32 * 8];

    for size in test_sizes {
        let mut original = vec![0u8; size];
        rand::thread_rng().fill(&mut original[..]);
        original[31] &= 0x0F;

        // Convert to scalars and back
        let scalars = chunk_to_scalars(&original).unwrap();
        let result = scalars_to_chunk(&scalars).unwrap();

        assert_eq!(original.len(), result.len());
        assert_eq!(original, result, "Failed roundtrip test for size {}", size);
    }
}

#[test]
fn test_roundtrip_chunk_31_conversion() {
    let test_sizes = vec![31, 31 * 2, 31 * 8];

    for size in test_sizes {
        let mut original = vec![0u8; size];
        rand::thread_rng().fill(&mut original[..]);

        // Convert to scalars and back
        let scalars = chunk_to_scalars_31(&original).unwrap();
        let result = scalars_to_chunk_31(&scalars);

        assert_eq!(original.len(), result.len());
        assert_eq!(original, result, "Failed roundtrip test for size {}", size);
    }
}

#[test]
fn test_packed_roundtrip_arbitrary_high_nibbles() {
    // The packed scheme carries all eight bits of every byte, including
    // the high nibble of each word's last byte.
    let mut original = vec![0u8; 63 * 32 + 64];
    rand::thread_rng().fill(&mut original[..]);
    let scalars = chunk_to_scalars(&original).unwrap();
    let result = scalars_to_chunk(&scalars).unwrap();
    assert_eq!(original, result);
}

#[test]
fn test_chunk_to_scalars_rejects_bad_length() {
    let data = vec![7u8; 33];
    assert_eq!(chunk_to_scalars(&data).unwrap_err(), CodingError::InvalidLength);
    let data31 = vec![7u8; 30];
    assert_eq!(chunk_to_scalars_31(&data31).unwrap_err(), CodingError::InvalidLength);
}

#[test]
fn test_scalars_to_chunk_rejects_lone_tail() {
    // 65 scalars leave a final group of a single scalar, which cannot
    // carry both data and tail bits.
    let scalars = chunk_to_scalars(&vec![0u8; 64 * 32]).unwrap();
    assert_eq!(scalars.len(), 66);
    let truncated = &scalars[..65];
    assert_eq!(
        scalars_to_chunk(truncated).unwrap_err(),
        CodingError::MalformedChunk
    );
}

#[test]
fn test_scalar_count() {
    // 2048 bytes = 63 full words + tail, then 1 word + tail.
    let scalars = chunk_to_scalars(&vec![1u8; 2048]).unwrap();
    assert_eq!(scalars.len(), 66);
    // The simple scheme gives one scalar per 31 bytes.
    let scalars31 = chunk_to_scalars_31(&vec![1u8; 62]).unwrap();
    assert_eq!(scalars31.len(), 2);
}

#[test]
fn test_random_u8_slice_masks_every_32nd_byte() {
    let v = random_u8_slice(100);
    assert_eq!(v.len(), 100);
    assert_eq!(v[31], 0);
    assert_eq!(v[63], 0);
    assert_eq!(v[95], 0);
}
