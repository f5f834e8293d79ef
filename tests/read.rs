use scursor::{ReadCursor, ReadError, TrailingBytes};

#[test]
fn can_read_u8() {
    let mut cursor = ReadCursor::new(&[0xCA, 0xFE]);

    assert_eq!(cursor.remaining(), 2);
    assert_eq!(cursor.read_u8().unwrap(), 0xCA);
    assert_eq!(cursor.remaining(), 1);
    assert_eq!(cursor.read_u8().unwrap(), 0xFE);
    assert_eq!(cursor.remaining(), 0);
    assert!(cursor.read_u8().is_err());
    assert_eq!(cursor.remaining(), 0);
}

#[test]
fn can_read_u16_le() {
    let mut cursor = ReadCursor::new(&[0xCA, 0xFE]);
    assert_eq!(cursor.read_u16_le().unwrap(), 0xFECA);
    assert_eq!(cursor.remaining(), 0);
}

#[test]
fn can_read_u32_le() {
    let mut cursor = ReadCursor::new(&[0xAA, 0xBB, 0xCC, 0xDD]);
    assert_eq!(cursor.read_u32_le().unwrap(), 0xDDCCBBAA);
    assert_eq!(cursor.remaining(), 0);
}

#[test]
fn can_read_u48_le() {
    let mut cursor = ReadCursor::new(&[0xAA, 0xBB, 0xCC, 0xDD, 0xEE, 0xFF]);
    assert_eq!(cursor.read_u48_le().unwrap(), 0x00FFEEDDCCBBAA);
    assert_eq!(cursor.remaining(), 0);
}

#[test]
fn can_read_u64_le() {
    let mut cursor = ReadCursor::new(&[0xAA, 0xBB, 0xCC, 0xDD, 0xEE, 0xFF, 0x00, 0x01]);
    assert_eq!(cursor.read_u64_le().unwrap(), 0x0100FFEEDDCCBBAA);
    assert_eq!(cursor.remaining(), 0);
}

#[test]
fn can_read_f64_le() {
    let tests: [(f64, [u8; 8]); 2] = [
        (0.0, [0x00, 0x00, 0x00, 0x00, 0x00, 0x00, 0x00, 0x00]),
        (f64::MAX, [0xFF, 0xFF, 0xFF, 0xFF, 0xFF, 0xFF, 0xEF, 0x7F]),
    ];

    for (value, bytes) in tests {
        let mut cursor = ReadCursor::new(&bytes);
        assert_eq!(f64::from_bits(cursor.read_u64_le().unwrap()), value);
        assert_eq!(cursor.remaining(), 0);
    }
}

#[test]
fn can_read_f64_le_nan() {
    let mut cursor = ReadCursor::new(&[0x00, 0x00, 0x00, 0x00, 0x00, 0x00, 0xF8, 0x7F]);
    let value = f64::from_bits(cursor.read_u64_le().unwrap());
    assert!(value.is_nan());
}

#[test]
fn read_u8_stops_at_the_end_of_two_bytes() {
    let mut cursor = ReadCursor::new(&[0xCA, 0xFE]);
    assert_eq!(cursor.read_u8(), Ok(0xCA));
    assert_eq!(cursor.position(), 1);
    assert_eq!(cursor.read_u8(), Ok(0xFE));
    assert_eq!(cursor.position(), 2);
    assert_eq!(cursor.read_u8(), Err(ReadError));
    assert_eq!(cursor.position(), 2);
}

#[test]
fn read_u8_at_every_position() {
    let data = [1u8, 2, 3, 4, 5];
    for p in 0..=data.len() {
        let mut cursor = ReadCursor::new(&data);
        cursor.read_bytes(p).unwrap();
        let r = cursor.read_u8();
        if p < data.len() {
            assert_eq!(r, Ok(data[p]));
            assert_eq!(cursor.position(), p + 1);
        } else {
            assert_eq!(r, Err(ReadError));
            assert_eq!(cursor.position(), p);
        }
    }
}

#[test]
fn reads_big_endian_values() {
    let data = [0x01u8, 0x02, 0x03, 0x04, 0x05, 0x06, 0x07, 0x08];
    assert_eq!(ReadCursor::new(&data).read_u16_be(), Ok(0x0102));
    assert_eq!(ReadCursor::new(&data).read_u32_be(), Ok(0x01020304));
    assert_eq!(ReadCursor::new(&data).read_u48_be(), Ok(0x010203040506));
    assert_eq!(ReadCursor::new(&data).read_u64_be(), Ok(0x0102030405060708));
    assert_eq!(ReadCursor::new(&data).read_u16_le(), Ok(0x0201));
}

#[test]
fn reads_128_bit_values() {
    let mut data = [0u8; 16];
    for (i, b) in data.iter_mut().enumerate() {
        *b = i as u8 + 1;
    }
    assert_eq!(
        ReadCursor::new(&data).read_u128_be(),
        Ok(0x0102030405060708090A0B0C0D0E0F10)
    );
    assert_eq!(
        ReadCursor::new(&data).read_u128_le(),
        Ok(0x100F0E0D0C0B0A090807060504030201)
    );
    assert_eq!(ReadCursor::new(&[0xFF; 16]).read_i128_le(), Ok(-1));
    let mut min = [0u8; 16];
    min[0] = 0x80;
    assert_eq!(ReadCursor::new(&min).read_i128_be(), Ok(i128::MIN));
}

#[test]
fn reads_signed_values() {
    assert_eq!(ReadCursor::new(&[0xFF, 0xFF]).read_i16_le(), Ok(-1));
    assert_eq!(ReadCursor::new(&[0x00, 0x80]).read_i16_le(), Ok(i16::MIN));
    assert_eq!(ReadCursor::new(&[0x80, 0x00]).read_i16_be(), Ok(i16::MIN));
    assert_eq!(ReadCursor::new(&[0xFF, 0x7F]).read_i16_le(), Ok(i16::MAX));
    assert_eq!(ReadCursor::new(&[0xFE, 0xFF, 0xFF, 0xFF]).read_i32_le(), Ok(-2));
    assert_eq!(ReadCursor::new(&[0xFF, 0xFF, 0xFF, 0xFE]).read_i32_be(), Ok(-2));
    assert_eq!(
        ReadCursor::new(&[0, 0, 0, 0, 0, 0, 0, 0x80]).read_i64_le(),
        Ok(i64::MIN)
    );
    assert_eq!(
        ReadCursor::new(&[0x7F, 0xFF, 0xFF, 0xFF, 0xFF, 0xFF, 0xFF, 0xFF]).read_i64_be(),
        Ok(i64::MAX)
    );
}

#[test]
fn a_short_read_does_not_move_the_cursor() {
    let mut cursor = ReadCursor::new(&[1, 2, 3]);
    assert_eq!(cursor.read_u32_le(), Err(ReadError));
    assert_eq!(cursor.position(), 0);
    assert_eq!(cursor.read_u16_be(), Ok(0x0102));
    assert_eq!(cursor.read_u16_be(), Err(ReadError));
    assert_eq!(cursor.position(), 2);
    assert_eq!(cursor.remaining(), 1);
}

#[test]
fn read_array_and_bytes() {
    let data = [9u8, 8, 7, 6, 5];
    let mut cursor = ReadCursor::new(&data);
    assert_eq!(cursor.read_array::<2>(), Ok([9, 8]));
    assert_eq!(cursor.read_array::<4>(), Err(ReadError));
    assert_eq!(cursor.read_bytes(2), Ok(&data[2..4]));
    assert_eq!(cursor.read_bytes(2), Err(ReadError));
    assert_eq!(cursor.read_bytes(usize::MAX), Err(ReadError));
    assert_eq!(cursor.read_array::<0>(), Ok([]));
    assert_eq!(cursor.position(), 4);
    assert_eq!(cursor.read_all(), &[5]);
    assert_eq!(cursor.read_all(), &[] as &[u8]);
    assert!(cursor.is_empty());
}

#[test]
fn expect_empty_reports_the_trailing_count() {
    let data = [1u8, 2, 3];
    let mut cursor = ReadCursor::new(&data);
    assert_eq!(cursor.expect_empty(), Err(TrailingBytes { count: 3 }));
    cursor.read_u8().unwrap();
    assert_eq!(cursor.expect_empty(), Err(TrailingBytes { count: 2 }));
    assert!(!cursor.is_empty());
    cursor.read_all();
    assert_eq!(cursor.expect_empty(), Ok(()));
    assert!(cursor.is_empty());
    assert_eq!(ReadCursor::new(&[]).expect_empty(), Ok(()));
}

#[test]
fn read_transaction_rolls_back_on_failure() {
    let data = [0xAAu8, 0xBB, 0xCC];
    let mut cursor = ReadCursor::new(&data);
    let r = cursor.transaction(|cur| {
        cur.read_u16_le()?;
        cur.read_u16_le()
    });
    assert_eq!(r, Err(ReadError));
    assert_eq!(cursor.position(), 0);

    let r = cursor.transaction(|cur| {
        let a = cur.read_u8()?;
        let b = cur.read_u8()?;
        Ok::<(u8, u8), ReadError>((a, b))
    });
    assert_eq!(r, Ok((0xAA, 0xBB)));
    assert_eq!(cursor.position(), 2);
}

#[test]
fn nested_read_transactions() {
    let data = [1u8, 2, 3, 4];
    let mut cursor = ReadCursor::new(&data);
    let r = cursor.transaction(|outer| {
        outer.read_u8()?;
        let inner = outer.transaction(|inner| inner.read_u32_le());
        assert_eq!(inner, Err(ReadError));
        assert_eq!(outer.position(), 1);
        outer.read_u16_le()?;
        outer.read_u16_le()
    });
    assert_eq!(r, Err(ReadError));
    assert_eq!(cursor.position(), 0);
}

#[test]
fn no_read_panics_on_short_buffers() {
    let data = [0xA5u8; 10];
    for len in 0..=10 {
        let slice = &data[..len];
        for start in 0..=len {
            let mut c = ReadCursor::new(slice);
            c.read_bytes(start).unwrap();
            let before = c.position();
            let checks = [
                (c.read_u8().is_ok(), 1),
                (c.read_u16_le().is_ok(), 2),
                (c.read_i16_be().is_ok(), 2),
                (c.read_u32_be().is_ok(), 4),
                (c.read_i32_le().is_ok(), 4),
                (c.read_u48_le().is_ok(), 6),
                (c.read_u64_be().is_ok(), 8),
                (c.read_i64_le().is_ok(), 8),
                (c.read_u128_le().is_ok(), 16),
                (c.read_i128_be().is_ok(), 16),
            ];
            let mut pos = before;
            for (ok, width) in checks {
                assert_eq!(ok, pos + width <= len);
                if ok {
                    pos += width;
                }
            }
            assert_eq!(c.position(), pos);
            let _ = c.read_bytes(usize::MAX);
            let _ = c.read_array::<11>();
            assert!(c.position() <= len);
        }
    }
}
