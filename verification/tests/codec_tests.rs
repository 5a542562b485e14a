use vr_kernels::KernelError;
use vr_kernels::codec::DataCompressor;

fn sample_bits(vals: &[f32]) -> Vec<u32> {
    vals.iter().map(|v| v.to_bits()).collect()
}

fn sample_floats(bits: &[u32]) -> Vec<f32> {
    bits.iter().map(|b| f32::from_bits(*b)).collect()
}

#[test]
fn compress_short_input_passes_through() {
    let data: Vec<u8> = (0u8..15).collect();
    assert_eq!(DataCompressor::fast_compress(&data), data);
    assert_eq!(DataCompressor::fast_compress(&[]), Vec::<u8>::new());
}

#[test]
fn compress_repetitive_input_is_strictly_shorter() {
    let data = vec![0x41u8; 100];
    let compressed = DataCompressor::fast_compress(&data);
    assert!(compressed.len() < data.len());
    assert_eq!(
        DataCompressor::fast_decompress(&compressed),
        Ok(data.clone())
    );
}

#[test]
fn compress_round_trips_mixed_data() {
    let data = b"abcabcabcabc hello hello hello world!".to_vec();
    let compressed = DataCompressor::fast_compress(&data);
    assert_eq!(DataCompressor::fast_decompress(&compressed), Ok(data));
}

#[test]
fn compress_round_trips_incompressible_data() {
    let data: Vec<u8> = (0u8..=255).collect();
    let compressed = DataCompressor::fast_compress(&data);
    assert_eq!(DataCompressor::fast_decompress(&compressed), Ok(data));
}

#[test]
fn decompress_literal_token() {
    assert_eq!(
        DataCompressor::fast_decompress(&[3, b'a', b'b', b'c']),
        Ok(b"abc".to_vec())
    );
}

#[test]
fn decompress_match_token_copies_back_reference() {
    // "abc" literal, then copy 3 bytes from offset 3.
    assert_eq!(
        DataCompressor::fast_decompress(&[3, b'a', b'b', b'c', 0x80, 0, 3]),
        Ok(b"abcabc".to_vec())
    );
}

#[test]
fn decompress_truncated_token_is_error() {
    assert_eq!(
        DataCompressor::fast_decompress(&[0x80]),
        Err(KernelError::IndexOutOfRange)
    );
    assert_eq!(
        DataCompressor::fast_decompress(&[5, b'a']),
        Err(KernelError::IndexOutOfRange)
    );
}

#[test]
fn decompress_bad_back_reference_is_error() {
    // A match token whose offset reaches before the produced output.
    assert_eq!(
        DataCompressor::fast_decompress(&[1, b'a', 0x80, 0, 2]),
        Err(KernelError::IndexOutOfRange)
    );
    // A zero-length literal is malformed.
    assert_eq!(
        DataCompressor::fast_decompress(&[0]),
        Err(KernelError::IndexOutOfRange)
    );
}

#[test]
fn delta_encode_serializes_little_endian_deltas() {
    let bytes = DataCompressor::delta_encode(&sample_bits(&[1.0, 2.0, 4.0]));
    assert_eq!(bytes, vec![1, 0, 1, 0, 2, 0]);
}

#[test]
fn delta_round_trips_integral_samples() {
    let samples = [10.0f32, 20.0, 5.0, 5.0, -100.0, 32000.0];
    let bytes = DataCompressor::delta_encode(&sample_bits(&samples));
    let decoded = DataCompressor::delta_decode(&bytes);
    assert_eq!(sample_floats(&decoded), samples.to_vec());
}

#[test]
fn delta_wraps_out_of_range_deltas() {
    // A delta of 40000 wraps to 40000 - 65536 = -25536, not 32767.
    let bytes = DataCompressor::delta_encode(&sample_bits(&[40000.0]));
    let decoded = DataCompressor::delta_decode(&bytes);
    assert_eq!(sample_floats(&decoded), vec![-25536.0]);
}

#[test]
fn delta_truncates_fractional_deltas() {
    let bytes = DataCompressor::delta_encode(&sample_bits(&[1.5, 3.0]));
    let decoded = DataCompressor::delta_decode(&bytes);
    assert_eq!(sample_floats(&decoded), vec![1.0, 2.0]);
}

#[test]
fn delta_decode_ignores_trailing_odd_byte() {
    let decoded = DataCompressor::delta_decode(&[1, 0, 99]);
    assert_eq!(sample_floats(&decoded), vec![1.0]);
}
