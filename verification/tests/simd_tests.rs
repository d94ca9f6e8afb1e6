use arbtest::arbtest;
use vlen::simd::{Aarch64Simd, GenericSimd, SimdImpl, X86_64Simd};
use vlen::{bulk_decode_u32, bulk_decode_u32_safe, bulk_encode_u32, bulk_encode_u32_safe, CodecError};

#[test]
fn test_basic_encoding() {
    let mut buf = [0u8; 20];
    let values = [1u32, 2, 3, 4];
    let len = bulk_encode_u32(&mut buf, &values);
    assert!(len > 0);
}

#[test]
fn test_encode_decode_roundtrip() {
    let mut buf = [0u8; 20];
    let values = [1u32, 1000, 1000000, 1000000000];
    let encoded_len = bulk_encode_u32(&mut buf, &values);
    let mut decoded_values = [0u32; 4];
    let _decoded_len = bulk_decode_u32(&buf[..encoded_len], &mut decoded_values);
    assert_eq!(values, decoded_values);
}

#[test]
fn test_4byte_5byte_encoding() {
    let mut buf = [0u8; 20];
    let values = [0x10000000u32, 0x20000000, 0x30000000, 0x40000000];
    let len = bulk_encode_u32(&mut buf, &values);
    assert!(len > 0);
}

#[test]
fn test_mixed_encoding_sizes() {
    let mut buf = [0u8; 20];
    let values = [1u32, 1000, 1000000, 1000000000];
    let len = bulk_encode_u32(&mut buf, &values);
    assert!(len > 0);
}

#[test]
fn test_decode_2byte_values() {
    let mut buf = [0u8; 20];
    let values = [1000u32, 2000, 3000, 4000];
    let encoded_len = bulk_encode_u32(&mut buf, &values);
    let mut decoded_values = [0u32; 4];
    let _decoded_len = bulk_decode_u32(&buf[..encoded_len], &mut decoded_values);
    assert_eq!(values, decoded_values);
}

#[test]
fn test_decode_3byte_values() {
    let mut buf = [0u8; 12];
    let values = [100000u32, 200000, 300000, 400000];
    let encoded_len = bulk_encode_u32(&mut buf, &values);
    let mut decoded_values = [0u32; 4];
    let _decoded_len = bulk_decode_u32(&buf[..encoded_len], &mut decoded_values);
    assert_eq!(values, decoded_values);
}

#[test]
fn test_decode_mixed_sizes_in_sequence() {
    let mut buf = [0u8; 20];
    let values = [1u32, 1000, 100000, 10000000];
    let encoded_len = bulk_encode_u32(&mut buf, &values);
    let mut decoded_values = [0u32; 4];
    let _decoded_len = bulk_decode_u32(&buf[..encoded_len], &mut decoded_values);
    assert_eq!(values, decoded_values);
}

#[test]
fn test_bulk_decode_u32() {
    let mut buf = [0u8; 20];
    let values = [1u32, 1000, 1000000, 1000000000];
    let encoded_len = vlen::bulk_encode_u32(&mut buf, &values);
    let mut decoded_values = [0u32; 4];
    let decoded_len = vlen::bulk_decode_u32(&buf[..encoded_len], &mut decoded_values);
    assert_eq!(decoded_len, encoded_len);
    assert_eq!(values, decoded_values);
}

#[test]
fn test_bulk_decode_u32_mixed() {
    let mut buf = [0u8; 20];
    let values = [1u32, 1000, 1000000, 1000000000];
    let encoded_len = vlen::bulk_encode_u32(&mut buf, &values);
    let mut decoded_values = [0u32; 4];
    let decoded_len = vlen::bulk_decode_u32(&buf[..encoded_len], &mut decoded_values);
    assert_eq!(decoded_len, encoded_len);
    assert_eq!(values, decoded_values);
}

#[test]
fn test_safe_bulk_operations() {
    let values = [1u32, 1000, 1000000, 1000000000];
    let mut buf = [0u8; 20];
    let encoded_len = vlen::bulk_encode_u32_safe(&mut buf, &values).unwrap();
    let mut decoded_values = [0u32; 4];
    let decoded_len = vlen::bulk_decode_u32_safe(&buf[..encoded_len], &mut decoded_values).unwrap();
    assert_eq!(decoded_len, encoded_len);
    assert_eq!(values, decoded_values);
}

#[test]
fn test_safe_bulk_buffer_too_small() {
    let values = [1u32, 1000, 1000000, 1000000000];
    let mut buf = [0u8; 5];
    let result = vlen::bulk_encode_u32_safe(&mut buf, &values);
    assert!(result.is_err());
}

#[test]
fn test_simd_bulk_operations_when_available() {
    arbtest(|u| {
        let values: Vec<u32> = (0..u.arbitrary::<u8>()? as usize % 10 + 1)
            .map(|_| u.arbitrary::<u32>().unwrap())
            .collect();
        let mut buf = vec![0u8; values.len() * 5];
        let encoded_len = bulk_encode_u32_safe(&mut buf, &values).unwrap();
        buf.truncate(encoded_len);
        let mut decoded_values = vec![0u32; values.len()];
        let _decoded_len = bulk_decode_u32_safe(&buf, &mut decoded_values).unwrap();
        assert_eq!(values.len(), decoded_values.len());
        Ok(())
    });
}

#[test]
fn test_simd_buffer_size_validation() {
    arbtest(|u| {
        let values: Vec<u32> = (0..u.arbitrary::<u8>()? as usize % 10 + 1)
            .map(|_| u.arbitrary::<u32>().unwrap())
            .collect();

        let mut small_buf = vec![0u8; values.len() * 2];
        let result = bulk_encode_u32_safe(&mut small_buf, &values);
        assert!(result.is_err());

        let mut adequate_buf = vec![0u8; values.len() * 5];
        let result = bulk_encode_u32_safe(&mut adequate_buf, &values);
        assert!(result.is_ok());
        Ok(())
    });
}

#[test]
fn test_group_is_stored_in_the_tier_of_its_greatest() {
    let mut buf = [0xEEu8; 22];
    assert_eq!(bulk_encode_u32(&mut buf, &[1, 1000, 1000000, 1000000000]), 20);
    assert_eq!(
        buf,
        [
            0xF3, 0x01, 0x00, 0x00, 0x00, 0xF3, 0xE8, 0x03, 0x00, 0x00, 0xF3, 0x40, 0x42, 0x0F,
            0x00, 0xF3, 0x00, 0xCA, 0x9A, 0x3B, 0xEE, 0xEE
        ]
    );
    let mut buf = [0xEEu8; 10];
    assert_eq!(bulk_encode_u32(&mut buf, &[1, 2, 3, 4]), 8);
    assert_eq!(buf, [0x81, 0x00, 0x82, 0x00, 0x83, 0x00, 0x84, 0x00, 0xEE, 0xEE]);
    let mut buf = [0xEEu8; 12];
    assert_eq!(bulk_encode_u32(&mut buf, &[0x4000, 2, 3, 0x1F_FFFF]), 12);
    assert_eq!(buf, [0xC0, 0x00, 0x02, 0xC2, 0x00, 0x00, 0xC3, 0x00, 0x00, 0xDF, 0xFF, 0xFF]);
    let mut buf = [0xEEu8; 16];
    assert_eq!(bulk_encode_u32(&mut buf, &[0x20_0000, 2, 3, 0xFFF_FFFF]), 16);
    assert_eq!(
        buf,
        [0xE0, 0, 0, 0x02, 0xE2, 0, 0, 0, 0xE3, 0, 0, 0, 0xEF, 0xFF, 0xFF, 0xFF]
    );
}

#[test]
fn test_values_that_fill_no_group_are_stored_one_by_one() {
    let mut buf = [0xEEu8; 25];
    assert_eq!(bulk_encode_u32(&mut buf, &[1, 2, 3, 4, 5]), 9);
    assert_eq!(&buf[..10], &[0x81, 0x00, 0x82, 0x00, 0x83, 0x00, 0x84, 0x00, 0x05, 0xEE]);
    let mut buf = [0xEEu8; 15];
    assert_eq!(bulk_encode_u32(&mut buf, &[1, 1000, 1000000]), 6);
    assert_eq!(&buf[..7], &[0x01, 0xA8, 0x0F, 0xC0, 0x12, 0x7A, 0xEE]);
    let mut buf = [0xEEu8; 4];
    assert_eq!(bulk_encode_u32(&mut buf, &[]), 0);
    assert_eq!(buf, [0xEE; 4]);
}

#[test]
fn test_generic_backend_stores_every_value_by_itself() {
    let mut buf = [0xEEu8; 20];
    assert_eq!(GenericSimd::bulk_encode_u32(&mut buf, &[1, 1000, 1000000, 1000000000]), 11);
    assert_eq!(
        &buf[..12],
        &[0x01, 0xA8, 0x0F, 0xC0, 0x12, 0x7A, 0xF3, 0x00, 0xCA, 0x9A, 0x3B, 0xEE]
    );
    let mut out = [7u32; 5];
    assert_eq!(GenericSimd::bulk_decode_u32(&buf[..11], &mut out), 11);
    assert_eq!(out, [1, 1000, 1000000, 1000000000, 7]);
}

#[test]
fn test_backends_store_and_read_alike() {
    arbtest(|u| {
        let values: Vec<u32> = (0..u.arbitrary::<u8>()? as usize % 14)
            .map(|_| {
                let shift = u.arbitrary::<u8>().unwrap() % 32;
                u.arbitrary::<u32>().unwrap() >> shift
            })
            .collect();
        let mut a = vec![0u8; values.len() * 5];
        let mut b = vec![0u8; values.len() * 5];
        let len_a = X86_64Simd::bulk_encode_u32(&mut a, &values);
        let len_b = Aarch64Simd::bulk_encode_u32(&mut b, &values);
        assert_eq!(len_a, len_b);
        assert_eq!(a, b);
        assert_eq!(bulk_encode_u32_safe(&mut b, &values), Ok(len_a));
        assert_eq!(a, b);

        let mut out_a = vec![0u32; values.len()];
        let mut out_b = vec![0u32; values.len()];
        assert_eq!(X86_64Simd::bulk_decode_u32(&a[..len_a], &mut out_a), len_a);
        assert_eq!(Aarch64Simd::bulk_decode_u32(&a[..len_a], &mut out_b), len_a);
        assert_eq!(values, out_a);
        assert_eq!(values, out_b);

        // what stands behind the stream makes no difference
        let mut out = vec![0u32; values.len()];
        assert_eq!(bulk_decode_u32(&a, &mut out), len_a);
        assert_eq!(values, out);

        // the generic backend reads what a vector backend has stored
        let mut out = vec![0u32; values.len()];
        assert_eq!(GenericSimd::bulk_decode_u32(&a[..len_a], &mut out), len_a);
        assert_eq!(values, out);

        // and its own
        let mut c = vec![0u8; values.len() * 5];
        let len_c = GenericSimd::bulk_encode_u32(&mut c, &values);
        assert!(len_c <= len_a);
        let mut out = vec![0u32; values.len()];
        assert_eq!(GenericSimd::bulk_decode_u32(&c[..len_c], &mut out), len_c);
        assert_eq!(values, out);
        Ok(())
    });
}

#[test]
fn test_groups_behind_the_first_are_read_in_their_own_tier() {
    // twelve values in the two-byte tier: the first group is read as a group, the others,
    // with fewer than twenty bytes left, one by one
    let values: Vec<u32> = (0..12).map(|i| 1000 + 17 * i).collect();
    let mut buf = vec![0u8; 60];
    assert_eq!(bulk_encode_u32(&mut buf, &values), 24);
    let mut out = vec![0u32; 12];
    assert_eq!(bulk_decode_u32(&buf[..24], &mut out), 24);
    assert_eq!(values, out);
    let mut out = vec![0u32; 12];
    assert_eq!(bulk_decode_u32(&buf, &mut out), 24);
    assert_eq!(values, out);
    // groups of different tiers, one after the other
    let values = [1u32, 2, 3, 4, 70000, 5, 6, 7, 0x1000_0000, 8, 9, 10, 11, 12, 13, 0x20_0000, 77];
    let mut buf = vec![0u8; 85];
    assert_eq!(bulk_encode_u32(&mut buf, &values), 8 + 12 + 20 + 16 + 1);
    let mut out = [0u32; 17];
    assert_eq!(bulk_decode_u32(&buf[..57], &mut out), 57);
    assert_eq!(values, out);
}

#[test]
fn test_a_group_is_read_in_the_tier_of_its_first_byte() {
    // twenty one-byte values are no group: read as one, the first byte announces two-byte lanes
    let bytes = [1u8; 20];
    let mut out = [0u32; 4];
    assert_eq!(bulk_decode_u32(&bytes, &mut out), 8);
    assert_eq!(out, [65, 65, 65, 65]);
    // the generic backend reads them one by one
    let mut out = [0u32; 4];
    assert_eq!(GenericSimd::bulk_decode_u32(&bytes, &mut out), 4);
    assert_eq!(out, [1, 1, 1, 1]);
    // with three slots, or fewer than twenty bytes, so does a vector backend
    let mut out = [0u32; 3];
    assert_eq!(bulk_decode_u32(&bytes, &mut out), 3);
    assert_eq!(out, [1, 1, 1]);
    let mut out = [0u32; 4];
    assert_eq!(bulk_decode_u32(&bytes[..19], &mut out), 4);
    assert_eq!(out, [1, 1, 1, 1]);
}

#[test]
fn test_bulk_decode_of_an_empty_or_truncated_buffer() {
    let mut out = [7u32; 2];
    assert_eq!(bulk_decode_u32_safe(&[], &mut out), Ok(0));
    assert_eq!(out, [7, 7]);
    // bytes that lack read as zeros; the length is the announced one
    assert_eq!(bulk_decode_u32_safe(&[0xF3, 0x01], &mut out), Ok(5));
    assert_eq!(out, [1, 7]);
    assert_eq!(bulk_encode_u32_safe(&mut [0u8; 19], &[1, 2, 3, 4]), Err(CodecError::BufferTooSmall));
    assert_eq!(bulk_encode_u32_safe(&mut [0u8; 20], &[1, 2, 3, 4]), Ok(8));
    assert_eq!(bulk_encode_u32_safe(&mut [], &[]), Ok(0));
}

#[test]
fn test_generic_bulk_functions_of_the_simd_module() {
    let values = [1i64, -1000, 1000000, -1000000000];
    let mut buf = [0u8; 36];
    let encoded_len = vlen::simd::bulk_encode(&mut buf, &values).unwrap();
    assert_eq!(encoded_len, 1 + 2 + 3 + 5);
    let mut decoded_values = [0i64; 4];
    assert_eq!(vlen::simd::bulk_decode(&buf[..encoded_len + 8], &mut decoded_values), Ok(encoded_len));
    assert_eq!(values, decoded_values);
    assert_eq!(vlen::simd::bulk_encode(&mut buf[..8], &values), Err(CodecError::BufferTooSmall));
}

#[test]
fn test_kernels() {
    let mut buf = [0xEEu8; 10];
    assert_eq!(vlen::simd::lanes::encode_2byte(&mut buf, 1, [0x3FFF, 0, 0x80, 5]), 8);
    assert_eq!(buf, [0xEE, 0xBF, 0xFF, 0x80, 0x00, 0x80, 0x02, 0x85, 0x00, 0xEE]);
    let mut out = [9u32; 6];
    assert_eq!(vlen::simd::lanes::decode_2byte(&buf, 1, &mut out, 1), 9);
    assert_eq!(out, [9, 0x3FFF, 0, 0x80, 5, 9]);
    let mut buf = [0xEEu8; 20];
    assert_eq!(vlen::simd::lanes::encode_5byte(&mut buf, 0, [u32::MAX, 0, 1, 0x0102_0304]), 20);
    let mut out = [9u32; 4];
    assert_eq!(vlen::simd::lanes::decode_5byte(&buf, 0, &mut out, 0), 20);
    assert_eq!(out, [u32::MAX, 0, 1, 0x0102_0304]);
    let mut buf = [0xEEu8; 12];
    assert_eq!(vlen::simd::lanes::encode_3byte(&mut buf, 0, [0x1F_FFFF, 0, 1, 0x4000]), 12);
    let mut out = [9u32; 4];
    assert_eq!(vlen::simd::lanes::decode_3byte(&buf, 0, &mut out, 0), 12);
    assert_eq!(out, [0x1F_FFFF, 0, 1, 0x4000]);
    let mut buf = [0xEEu8; 16];
    assert_eq!(vlen::simd::lanes::encode_4byte(&mut buf, 0, [0xFFF_FFFF, 0, 1, 0x20_0000]), 16);
    let mut out = [9u32; 4];
    assert_eq!(vlen::simd::lanes::decode_4byte(&buf, 0, &mut out, 0), 16);
    assert_eq!(out, [0xFFF_FFFF, 0, 1, 0x20_0000]);
    assert_eq!(vlen::simd::greatest_of(&[3, 9, 2, 9]), 9);
}
