use arbtest::arbtest;
use vlen::{
    bulk_decode, bulk_decode_values, bulk_encode, bulk_encode_to_vec, decode_f32_bits,
    decode_f64_bits, decode_i128, decode_i16, decode_i32, decode_i64, decode_u128, decode_u16,
    decode_u32, decode_u64, decode_value, encode, encode_f32_bits, encode_f64_bits, encode_i128,
    encode_i16, encode_i32, encode_i64, encode_to_vec, encode_u128, encode_u16, encode_u32,
    encode_u64, encoded_size, encoded_size_u128, encoded_size_u16, encoded_size_u32,
    encoded_size_u64, CodecError,
};

#[test]
fn test_u16_round_trip() {
    arbtest(|u| {
        let value = u.arbitrary::<u16>()?;
        let mut buf = [0u8; 3];
        let encoded_len = encode_u16(&mut buf, value);
        let (decoded_value, decoded_len) = decode_u16(&buf);
        assert_eq!(value, decoded_value);
        assert_eq!(encoded_len, decoded_len);
        Ok(())
    });
}

#[test]
fn test_u32_round_trip() {
    arbtest(|u| {
        let value = u.arbitrary::<u32>()?;
        let mut buf = [0u8; 5];
        let encoded_len = encode_u32(&mut buf, value);
        let (decoded_value, decoded_len) = decode_u32(&buf);
        assert_eq!(value, decoded_value);
        assert_eq!(encoded_len, decoded_len);
        Ok(())
    });
}

#[test]
fn test_u64_round_trip() {
    arbtest(|u| {
        let value = u.arbitrary::<u64>()?;
        let mut buf = [0u8; 9];
        let encoded_len = encode_u64(&mut buf, value);
        let (decoded_value, decoded_len) = decode_u64(&buf);
        assert_eq!(value, decoded_value);
        assert_eq!(encoded_len, decoded_len);
        Ok(())
    });
}

#[test]
fn test_u128_round_trip() {
    arbtest(|u| {
        let value = u.arbitrary::<u128>()?;
        let mut buf = [0u8; 17];
        let encoded_len = encode_u128(&mut buf, value);
        let (decoded_value, decoded_len) = decode_u128(&buf);
        assert_eq!(value, decoded_value);
        assert_eq!(encoded_len, decoded_len);
        Ok(())
    });
}

#[test]
fn test_i16_round_trip() {
    arbtest(|u| {
        let value = u.arbitrary::<i16>()?;
        let mut buf = [0u8; 3];
        let encoded_len = encode_i16(&mut buf, value);
        let (decoded_value, decoded_len) = decode_i16(&buf);
        assert_eq!(value, decoded_value);
        assert_eq!(encoded_len, decoded_len);
        Ok(())
    });
}

#[test]
fn test_i32_round_trip() {
    arbtest(|u| {
        let value = u.arbitrary::<i32>()?;
        let mut buf = [0u8; 5];
        let encoded_len = encode_i32(&mut buf, value);
        let (decoded_value, decoded_len) = decode_i32(&buf);
        assert_eq!(value, decoded_value);
        assert_eq!(encoded_len, decoded_len);
        Ok(())
    });
}

#[test]
fn test_i64_round_trip() {
    arbtest(|u| {
        let value = u.arbitrary::<i64>()?;
        let mut buf = [0u8; 9];
        let encoded_len = encode_i64(&mut buf, value);
        let (decoded_value, decoded_len) = decode_i64(&buf);
        assert_eq!(value, decoded_value);
        assert_eq!(encoded_len, decoded_len);
        Ok(())
    });
}

#[test]
fn test_i128_round_trip() {
    arbtest(|u| {
        let value = u.arbitrary::<i128>()?;
        let mut buf = [0u8; 17];
        let encoded_len = encode_i128(&mut buf, value);
        let (decoded_value, decoded_len) = decode_i128(&buf);
        assert_eq!(value, decoded_value);
        assert_eq!(encoded_len, decoded_len);
        Ok(())
    });
}

#[test]
fn test_f32_round_trip() {
    arbtest(|u| {
        let value = u.arbitrary::<f32>()?;
        let mut buf = [0u8; 5];
        let encoded_len = encode_f32_bits(&mut buf, value.to_bits());
        let (decoded_bits, decoded_len) = decode_f32_bits(&buf);
        let decoded_value = f32::from_bits(decoded_bits);
        if value.is_nan() {
            assert!(decoded_value.is_nan());
        } else {
            assert_eq!(value, decoded_value);
        }
        assert_eq!(value.to_bits(), decoded_bits);
        assert_eq!(encoded_len, decoded_len);
        Ok(())
    });
}

#[test]
fn test_f64_round_trip() {
    arbtest(|u| {
        let value = u.arbitrary::<f64>()?;
        let mut buf = [0u8; 9];
        let encoded_len = encode_f64_bits(&mut buf, value.to_bits());
        let (decoded_bits, decoded_len) = decode_f64_bits(&buf);
        let decoded_value = f64::from_bits(decoded_bits);
        if value.is_nan() {
            assert!(decoded_value.is_nan());
        } else {
            assert_eq!(value, decoded_value);
        }
        assert_eq!(value.to_bits(), decoded_bits);
        assert_eq!(encoded_len, decoded_len);
        Ok(())
    });
}

#[test]
fn test_nan_bits_come_back() {
    for bits in [0x7FC0_0000u32, 0x7FC0_0001, 0xFFC0_0000, 0x7F80_0001, 0xFFFF_FFFF] {
        assert!(f32::from_bits(bits).is_nan());
        let mut buf = [0u8; 5];
        let len = encode_f32_bits(&mut buf, bits);
        assert_eq!(decode_f32_bits(&buf), (bits, len));
    }
}

#[test]
fn test_u16_size_bounds() {
    arbtest(|u| {
        let value = u.arbitrary::<u16>()?;
        let mut buf = [0u8; 3];
        let encoded_len = encode_u16(&mut buf, value);
        assert!(encoded_len >= 1);
        assert!(encoded_len <= 3);
        if value < 128 {
            assert_eq!(encoded_len, 1);
        }
        Ok(())
    });
}

#[test]
fn test_u32_size_bounds() {
    arbtest(|u| {
        let value = u.arbitrary::<u32>()?;
        let mut buf = [0u8; 5];
        let encoded_len = encode_u32(&mut buf, value);
        assert!(encoded_len >= 1);
        assert!(encoded_len <= 5);
        if value < 128 {
            assert_eq!(encoded_len, 1);
        }
        Ok(())
    });
}

#[test]
fn test_u64_size_bounds() {
    arbtest(|u| {
        let value = u.arbitrary::<u64>()?;
        let mut buf = [0u8; 9];
        let encoded_len = encode_u64(&mut buf, value);
        assert!(encoded_len >= 1);
        assert!(encoded_len <= 9);
        if value < 128 {
            assert_eq!(encoded_len, 1);
        }
        Ok(())
    });
}

#[test]
fn test_u128_size_bounds() {
    arbtest(|u| {
        let value = u.arbitrary::<u128>()?;
        let mut buf = [0u8; 17];
        let encoded_len = encode_u128(&mut buf, value);
        assert!(encoded_len >= 1);
        assert!(encoded_len <= 17);
        if value < 128 {
            assert_eq!(encoded_len, 1);
        }
        Ok(())
    });
}

#[test]
fn test_i128_size_bounds() {
    arbtest(|u| {
        let value = u.arbitrary::<i128>()?;
        let mut buf = [0u8; 17];
        let encoded_len = encode_i128(&mut buf, value);
        assert!(encoded_len >= 1);
        assert!(encoded_len <= 17);
        if value != i128::MIN && value.abs() < 64 {
            assert_eq!(encoded_len, 1);
        }
        Ok(())
    });
}

#[test]
fn test_small_values_take_one_byte() {
    for value in 0u32..128 {
        let mut buf = [0u8; 17];
        assert_eq!(encode_u16(&mut [0u8; 3], value as u16), 1);
        assert_eq!(encode_u32(&mut [0u8; 5], value), 1);
        assert_eq!(encode_u64(&mut [0u8; 9], value as u64), 1);
        assert_eq!(encode_u128(&mut buf, value as u128), 1);
        assert_eq!(buf[0], value as u8);
    }
    assert_eq!(encode_u32(&mut [0u8; 5], 128), 2);
    for value in -64i32..64 {
        assert_eq!(encode_i16(&mut [0u8; 3], value as i16), 1);
        assert_eq!(encode_i32(&mut [0u8; 5], value), 1);
        assert_eq!(encode_i64(&mut [0u8; 9], value as i64), 1);
        assert_eq!(encode_i128(&mut [0u8; 17], value as i128), 1);
    }
    assert_eq!(encode_i32(&mut [0u8; 5], 64), 2);
    assert_eq!(encode_i32(&mut [0u8; 5], -65), 2);
}

#[test]
fn test_u16_encoded_size_consistency() {
    arbtest(|u| {
        let value = u.arbitrary::<u16>()?;
        let mut buf = [0u8; 3];
        let actual_len = encode_u16(&mut buf, value);
        let calculated_size = encoded_size_u16(value);
        assert_eq!(actual_len, calculated_size);
        Ok(())
    });
}

#[test]
fn test_u32_encoded_size_consistency() {
    arbtest(|u| {
        let value = u.arbitrary::<u32>()?;
        let mut buf = [0u8; 5];
        let actual_len = encode_u32(&mut buf, value);
        let calculated_size = encoded_size_u32(value);
        assert_eq!(actual_len, calculated_size);
        Ok(())
    });
}

#[test]
fn test_u64_encoded_size_consistency() {
    arbtest(|u| {
        let value = u.arbitrary::<u64>()?;
        let mut buf = [0u8; 9];
        let actual_len = encode_u64(&mut buf, value);
        let calculated_size = encoded_size_u64(value);
        assert_eq!(actual_len, calculated_size);
        Ok(())
    });
}

#[test]
fn test_u128_encoded_size_consistency() {
    arbtest(|u| {
        let value = u.arbitrary::<u128>()?;
        let mut buf = [0u8; 17];
        let actual_len = encode_u128(&mut buf, value);
        let calculated_size = encoded_size_u128(value);
        assert_eq!(actual_len, calculated_size);
        Ok(())
    });
}

#[test]
fn test_encoded_size_at_the_tier_boundaries() {
    let sizes: [(u128, usize); 18] = [
        (0, 1),
        (0x7F, 1),
        (0x80, 2),
        (0x3FFF, 2),
        (0x4000, 3),
        (0x1F_FFFF, 3),
        (0x20_0000, 4),
        (0xFFF_FFFF, 4),
        (0x1000_0000, 5),
        (0xFFFF_FFFF, 5),
        (0x1_0000_0000, 6),
        (0xFF_FFFF_FFFF, 6),
        (0x100_0000_0000, 7),
        (0x1_0000_0000_0000, 8),
        (0x100_0000_0000_0000, 9),
        (0xFFFF_FFFF_FFFF_FFFF, 9),
        (0x1_0000_0000_0000_0000, 10),
        (u128::MAX, 17),
    ];
    for (value, size) in sizes {
        assert_eq!(encoded_size_u128(value), size, "{value:#x}");
        assert_eq!(encoded_size(value), Ok(size));
        if value <= u64::MAX as u128 {
            assert_eq!(encoded_size_u64(value as u64), size);
        }
        if value <= u32::MAX as u128 {
            assert_eq!(encoded_size_u32(value as u32), size);
        }
    }
    assert_eq!(encoded_size_u16(0x4000), 3);
    assert_eq!(encoded_size_u16(0xFFFF), 3);
    assert_eq!(encoded_size(-1i64), Ok(1));
    assert_eq!(encoded_size(i64::MIN), Ok(9));
    assert_eq!(encoded_size(vlen::F32Bits(0.0f32.to_bits())), Ok(1));
    assert_eq!(encoded_size(vlen::F64Bits((-0.0f64).to_bits())), Ok(2));
    assert_eq!(encoded_size(vlen::F64Bits(1.0f64.to_bits())), Ok(3));
}

#[test]
fn test_compression_efficiency_u32() {
    arbtest(|u| {
        let value = u.arbitrary::<u32>()?;
        let mut buf = [0u8; 5];
        let encoded_len = encode_u32(&mut buf, value);
        if value < 128 {
            assert_eq!(encoded_len, 1);
        }
        if (128..0x10000000).contains(&value) {
            assert!(encoded_len <= 4);
        }
        Ok(())
    });
}

#[test]
fn test_compression_efficiency_u64() {
    arbtest(|u| {
        let value = u.arbitrary::<u64>()?;
        let mut buf = [0u8; 9];
        let encoded_len = encode_u64(&mut buf, value);
        if value < 128 {
            assert_eq!(encoded_len, 1);
        }
        if (128..0x10000000).contains(&value) {
            assert!(encoded_len <= 4);
        }
        Ok(())
    });
}

#[test]
fn test_i128_compression_efficiency() {
    arbtest(|u| {
        let value = u.arbitrary::<i128>()?;
        let mut buf = [0u8; 17];
        let encoded_len = encode_i128(&mut buf, value);
        if value != i128::MIN {
            if value.abs() < 64 {
                assert_eq!(encoded_len, 1);
            }
            if (64..0x8000000).contains(&value.abs()) {
                assert!(encoded_len <= 4);
            }
        }
        Ok(())
    });
}

#[test]
fn test_u32_prefix_consistency() {
    arbtest(|u| {
        let value = u.arbitrary::<u32>()?;
        let mut buf = [0u8; 5];
        let encoded_len = encode_u32(&mut buf, value);
        let prefix_len = vlen::encoded_len(buf[0]);
        assert_eq!(encoded_len, prefix_len);
        Ok(())
    });
}

#[test]
fn test_prefix_consistency_of_every_width() {
    arbtest(|u| {
        let value = u.arbitrary::<u128>()?;
        let shift = u.arbitrary::<u8>()? % 128;
        let value = value >> shift;
        let mut buf = [0u8; 17];
        let encoded_len = encode_u128(&mut buf, value);
        assert_eq!(encoded_len, vlen::encoded_len(buf[0]));
        let mut buf = [0u8; 9];
        let encoded_len = encode_u64(&mut buf, value as u64);
        assert_eq!(encoded_len, vlen::encoded_len(buf[0]));
        let mut buf = [0u8; 3];
        let encoded_len = encode_u16(&mut buf, value as u16);
        assert_eq!(encoded_len, vlen::encoded_len(buf[0]));
        Ok(())
    });
}

#[test]
fn test_little_endian_encoding() {
    arbtest(|u| {
        let value = u.arbitrary::<u32>()?;
        let mut buf = [0u8; 5];
        let encoded_len = encode_u32(&mut buf, value);
        if encoded_len == 5 {
            let stored_value = u32::from_le_bytes([buf[1], buf[2], buf[3], buf[4]]);
            assert_eq!(value, stored_value);
        }
        Ok(())
    });
}

#[test]
fn test_little_endian_in_the_longest_tier_of_every_width() {
    let mut buf = [0u8; 3];
    assert_eq!(encode_u16(&mut buf, 0xBEEF), 3);
    assert_eq!(&buf[1..], &0xBEEFu16.to_le_bytes());
    let mut buf = [0u8; 9];
    assert_eq!(encode_u64(&mut buf, 0x0123_4567_89AB_CDEF), 9);
    assert_eq!(&buf[1..], &0x0123_4567_89AB_CDEFu64.to_le_bytes());
    let mut buf = [0u8; 17];
    let value = 0x0123_4567_89AB_CDEF_1122_3344_5566_7788u128;
    assert_eq!(encode_u128(&mut buf, value), 17);
    assert_eq!(&buf[1..], &value.to_le_bytes());
}

#[test]
fn test_signed_integer_zigzag_encoding() {
    arbtest(|u| {
        let value = u.arbitrary::<i32>()?;
        let mut buf = [0u8; 5];
        let _ = encode_i32(&mut buf, value);
        if value < 0 {
            let zigzag_value = ((-value as u32) << 1) - 1;
            let (decoded_unsigned, _) = decode_u32(&buf);
            assert_eq!(zigzag_value, decoded_unsigned);
        } else {
            let zigzag_value = (value as u32) << 1;
            let (decoded_unsigned, _) = decode_u32(&buf);
            assert_eq!(zigzag_value, decoded_unsigned);
        }
        Ok(())
    });
}

#[test]
fn test_zigzag_order() {
    let expected: [(i16, u16); 7] = [(0, 0), (-1, 1), (1, 2), (-2, 3), (2, 4), (i16::MAX, 0xFFFE), (i16::MIN, 0xFFFF)];
    for (value, wire) in expected {
        let mut buf = [0u8; 3];
        let _ = encode_i16(&mut buf, value);
        assert_eq!(decode_u16(&buf).0, wire);
        let mut buf = [0u8; 3];
        let _ = encode_u16(&mut buf, wire);
        assert_eq!(decode_i16(&buf).0, value);
    }
}

#[test]
fn test_signed_integer_sign_preservation() {
    arbtest(|u| {
        let value = u.arbitrary::<i64>()?;
        let mut buf = [0u8; 9];
        let _ = encode_i64(&mut buf, value);
        let (decoded_value, _) = decode_i64(&buf);
        assert_eq!(value.signum(), decoded_value.signum());
        Ok(())
    });
}

#[test]
fn test_floating_point_infinity_handling() {
    arbtest(|u| {
        let value = if u.arbitrary::<bool>()? { f32::INFINITY } else { f32::NEG_INFINITY };
        let mut buf = [0u8; 5];
        let encoded_len = encode_f32_bits(&mut buf, value.to_bits());
        let (decoded_bits, decoded_len) = decode_f32_bits(&buf);
        assert_eq!(value, f32::from_bits(decoded_bits));
        assert_eq!(encoded_len, decoded_len);
        Ok(())
    });
}

#[test]
fn test_floating_point_subnormal_handling() {
    arbtest(|u| {
        let value = f32::from_bits(u.arbitrary::<u32>()? & 0x007FFFFF);
        if value.is_subnormal() {
            let mut buf = [0u8; 5];
            let encoded_len = encode_f32_bits(&mut buf, value.to_bits());
            let (decoded_bits, decoded_len) = decode_f32_bits(&buf);
            assert_eq!(value, f32::from_bits(decoded_bits));
            assert_eq!(encoded_len, decoded_len);
        }
        Ok(())
    });
}

#[test]
fn test_floating_point_byte_swapping() {
    arbtest(|u| {
        let value = u.arbitrary::<f64>()?;
        let mut buf = [0u8; 9];
        let _ = encode_f64_bits(&mut buf, value.to_bits());
        let (encoded_bits, _) = decode_u64(&buf);
        let original_bits = value.to_bits();
        assert_eq!(encoded_bits, original_bits.swap_bytes());
        Ok(())
    });
}

#[test]
fn test_bulk_encode_decode_round_trip() {
    arbtest(|u| {
        let values: Vec<u32> = (0..u.arbitrary::<u8>()? as usize % 5 + 1)
            .map(|_| u.arbitrary::<u32>().unwrap())
            .collect();
        let mut buf = [0u8; 25];
        let encoded_len = bulk_encode(&mut buf, &values).unwrap();
        let mut decode_buf = [0u8; 25];
        decode_buf[..encoded_len].copy_from_slice(&buf[..encoded_len]);
        let mut decoded_values = vec![0u32; values.len()];
        let decoded_len = bulk_decode(&decode_buf, &mut decoded_values).unwrap();
        assert_eq!(values, decoded_values);
        assert_eq!(encoded_len, decoded_len);
        Ok(())
    });
}

#[test]
fn test_bulk_encode_decode_mixed_types() {
    arbtest(|u| {
        let u32_values: Vec<u32> = (0..u.arbitrary::<u8>()? as usize % 3 + 1)
            .map(|_| u.arbitrary::<u32>().unwrap())
            .collect();
        let i32_values: Vec<i32> = (0..u.arbitrary::<u8>()? as usize % 3 + 1)
            .map(|_| u.arbitrary::<i32>().unwrap())
            .collect();

        let mut buf = [0u8; 15];
        let encoded_len = bulk_encode(&mut buf, &u32_values).unwrap();
        let mut decode_buf = [0u8; 15];
        decode_buf[..encoded_len].copy_from_slice(&buf[..encoded_len]);
        let mut decoded_values = vec![0u32; u32_values.len()];
        let decoded_len = bulk_decode(&decode_buf, &mut decoded_values).unwrap();
        assert_eq!(u32_values, decoded_values);
        assert_eq!(encoded_len, decoded_len);

        let mut buf = [0u8; 15];
        let encoded_len = bulk_encode(&mut buf, &i32_values).unwrap();
        let mut decode_buf = [0u8; 15];
        decode_buf[..encoded_len].copy_from_slice(&buf[..encoded_len]);
        let mut decoded_values = vec![0i32; i32_values.len()];
        let decoded_len = bulk_decode(&decode_buf, &mut decoded_values).unwrap();
        assert_eq!(i32_values, decoded_values);
        assert_eq!(encoded_len, decoded_len);
        Ok(())
    });
}

#[test]
fn test_bulk_exact_bytes() {
    let values = [1u32, 1000, 1000000, 1000000000];
    let mut buf = [0xEEu8; 16];
    assert_eq!(bulk_encode(&mut buf, &values), Ok(11));
    assert_eq!(
        buf,
        [0x01, 0xA8, 0x0F, 0xC0, 0x12, 0x7A, 0xF3, 0x00, 0xCA, 0x9A, 0x3B, 0xEE, 0xEE, 0xEE, 0xEE, 0xEE]
    );
    // the last value is not stored unless five bytes are left for it
    let mut buf = [0xEEu8; 10];
    assert_eq!(bulk_encode(&mut buf, &values), Err(CodecError::BufferTooSmall));
    assert_eq!(buf, [0x01, 0xA8, 0x0F, 0xC0, 0x12, 0x7A, 0xEE, 0xEE, 0xEE, 0xEE]);
    assert_eq!(bulk_encode::<u32>(&mut [], &[]), Ok(0));
    assert_eq!(bulk_encode(&mut [], &[1u32]), Err(CodecError::BufferTooSmall));
}

#[test]
fn test_bulk_decode_stops_and_fails_as_stated() {
    let bytes = [0x01, 0xA8, 0x0F, 0xC0, 0x12, 0x7A, 0xF3, 0x00, 0xCA, 0x9A, 0x3B];
    // fewer slots than values: stops when the slots are full
    let mut out = [7u32; 2];
    assert_eq!(bulk_decode(&bytes, &mut out), Ok(3));
    assert_eq!(out, [1, 1000]);
    // more slots than values: stops at the end of the buffer, the rest is untouched
    let mut out = [7u32; 6];
    assert_eq!(bulk_decode(&bytes, &mut out), Ok(11));
    assert_eq!(out, [1, 1000, 1000000, 1000000000, 7, 7]);
    // fewer than five bytes left where a value starts: fails, what was read stays
    let mut out = [7u32; 6];
    assert_eq!(bulk_decode(&bytes[..10], &mut out), Err(CodecError::BufferTooSmall));
    assert_eq!(out, [1, 1000, 1000000, 7, 7, 7]);
    let mut out = [7u32; 1];
    assert_eq!(bulk_decode(&[], &mut out), Ok(0));
    assert_eq!(out, [7]);
    // a length that a prefix announces may lead beyond the buffer
    let mut out = [7u32; 2];
    assert_eq!(bulk_decode(&[0xFF, 1, 0, 0, 0], &mut out), Ok(17));
    assert_eq!(out, [1, 7]);
}

#[test]
fn test_convenience_functions_round_trip() {
    arbtest(|u| {
        let value = u.arbitrary::<u32>()?;
        let encoded = encode_to_vec(value).unwrap();
        assert_eq!(encoded.len(), encoded_size_u32(value));
        if encoded.len() == 5 {
            let decoded = decode_value::<u32>(&encoded).unwrap();
            assert_eq!(value, decoded);
        } else {
            // a slice shorter than the longest encoding is refused, whatever it holds
            assert_eq!(decode_value::<u32>(&encoded), Err(CodecError::BufferTooSmall));
            let mut window = [0u8; 5];
            window[..encoded.len()].copy_from_slice(&encoded);
            let decoded = decode_value::<u32>(&window).unwrap();
            assert_eq!(value, decoded);
        }
        Ok(())
    });
}

#[test]
fn test_bulk_convenience_functions_round_trip() {
    arbtest(|u| {
        let values: Vec<i32> = (0..u.arbitrary::<u8>()? as usize % 5 + 1)
            .map(|_| u.arbitrary::<i32>().unwrap())
            .collect();
        let encoded = bulk_encode_to_vec(&values).unwrap();
        let mut manual = Vec::new();
        for value in &values {
            manual.extend_from_slice(&encode_to_vec(*value).unwrap());
        }
        assert_eq!(encoded, manual);
        let last_len = encode_to_vec(*values.last().unwrap()).unwrap().len();
        if last_len == 5 {
            let decoded = bulk_decode_values::<i32>(&encoded).unwrap();
            assert_eq!(values, decoded);
        } else {
            // a value is refused unless five bytes are left where it starts
            assert_eq!(bulk_decode_values::<i32>(&encoded), Err(CodecError::BufferTooSmall));
            // with four more bytes behind the stream, as many values as were written are read
            let mut padded = encoded.clone();
            padded.resize(encoded.len() + 4, 0);
            let mut decoded = vec![0i32; values.len()];
            assert_eq!(bulk_decode(&padded, &mut decoded), Ok(encoded.len()));
            assert_eq!(values, decoded);
        }
        Ok(())
    });
}

#[test]
fn test_edge_case_values() {
    arbtest(|_u| {
        let mut buf = [0u8; 5];

        let zero_u32 = 0u32;
        let encoded_len = encode_u32(&mut buf, zero_u32);
        let (decoded_value, _) = decode_u32(&buf);
        assert_eq!(zero_u32, decoded_value);
        assert_eq!(encoded_len, 1);

        let max_u32 = u32::MAX;
        let encoded_len = encode_u32(&mut buf, max_u32);
        let (decoded_value, _) = decode_u32(&buf);
        assert_eq!(max_u32, decoded_value);
        assert_eq!(encoded_len, 5);

        let boundary_values = [127u32, 128u32, 16383u32, 16384u32, 2097151u32, 2097152u32];
        for &value in &boundary_values {
            let _encoded_len = encode_u32(&mut buf, value);
            let (decoded_value, _) = decode_u32(&buf);
            assert_eq!(value, decoded_value);
        }
        Ok(())
    });
}

#[test]
fn test_buffer_overflow_handling() {
    arbtest(|u| {
        let value = u.arbitrary::<u32>()?;
        let required_size = encoded_size(value).unwrap();

        if required_size > 1 {
            let mut small_buf = [0u8; 1];
            let result = encode(&mut small_buf, value);
            assert!(result.is_err());
        }

        let mut adequate_buf = vec![0u8; 5];
        let result = encode(&mut adequate_buf, value);
        assert!(result.is_ok());

        let mut large_buf = vec![0u8; 10];
        let result = encode(&mut large_buf, value);
        assert!(result.is_ok());
        Ok(())
    });
}

#[test]
fn test_invalid_prefix_handling() {
    arbtest(|_u| {
        let buf = [0xFFu8; 5];
        let _result = decode_u32(&buf);
        Ok(())
    });
}

#[test]
fn test_truncated_data_handling() {
    arbtest(|u| {
        let value = u.arbitrary::<u32>()?;
        let mut buf = [0u8; 5];
        let encoded_len = encode_u32(&mut buf, value);

        if encoded_len > 1 {
            let mut truncated_buf = [0u8; 5];
            truncated_buf[..encoded_len - 1].copy_from_slice(&buf[..encoded_len - 1]);
            let _result = decode_u32(&truncated_buf);
        }
        Ok(())
    });
}

#[test]
fn test_generic_round_trip_of_every_type() {
    arbtest(|u| {
        let mut buf = [0u8; 17];
        let a = u.arbitrary::<u16>()?;
        let n = encode(&mut buf, a).unwrap();
        assert_eq!(vlen::decode::<u16>(&buf), Ok((a, n)));
        let a = u.arbitrary::<u64>()?;
        let n = encode(&mut buf, a).unwrap();
        assert_eq!(vlen::decode::<u64>(&buf), Ok((a, n)));
        let a = u.arbitrary::<u128>()?;
        let n = encode(&mut buf, a).unwrap();
        assert_eq!(vlen::decode::<u128>(&buf), Ok((a, n)));
        let a = u.arbitrary::<i16>()?;
        let n = encode(&mut buf, a).unwrap();
        assert_eq!(vlen::decode::<i16>(&buf), Ok((a, n)));
        let a = u.arbitrary::<i32>()?;
        let n = encode(&mut buf, a).unwrap();
        assert_eq!(vlen::decode::<i32>(&buf), Ok((a, n)));
        let a = u.arbitrary::<i64>()?;
        let n = encode(&mut buf, a).unwrap();
        assert_eq!(vlen::decode::<i64>(&buf), Ok((a, n)));
        let a = u.arbitrary::<i128>()?;
        let n = encode(&mut buf, a).unwrap();
        assert_eq!(vlen::decode::<i128>(&buf), Ok((a, n)));
        let a = vlen::F32Bits(u.arbitrary::<u32>()?);
        let n = encode(&mut buf, a).unwrap();
        assert_eq!(vlen::decode::<vlen::F32Bits>(&buf), Ok((a, n)));
        let a = vlen::F64Bits(u.arbitrary::<u64>()?);
        let n = encode(&mut buf, a).unwrap();
        assert_eq!(vlen::decode::<vlen::F64Bits>(&buf), Ok((a, n)));
        assert_eq!(encoded_size(a), Ok(n));
        Ok(())
    });
}
