use embedded_hal_fuzz::cursor::Cursor;
use embedded_hal_fuzz::fuzzed_type::{
    le_decode, try_get_buffer, ConversionError, Fuzzed, FuzzedError,
};
use embedded_hal_fuzz::i2c;

#[test]
fn fuzzed_type_unit_error() {
    let average_errors = (0..255u8)
        .map(|x| <()>::maybe_err(&mut Cursor::new(&[x.into()])))
        .filter(|x| x.is_err())
        .count();
    assert_eq!(average_errors, 255 / 2 + 1);
}

#[test]
fn the_result_form_hands_the_error_on() {
    assert_eq!(<()>::maybe_err(&mut Cursor::new(&[0])), Err(()));
    assert_eq!(<()>::maybe_err(&mut Cursor::new(&[1])), Ok(()));
    assert_eq!(<()>::maybe_err(&mut Cursor::new(&[])), Err(()));
    assert_eq!(
        i2c::Error::maybe_err(&mut Cursor::new(&[10])),
        Err(i2c::Error { kind: i2c::ErrorKind::Overrun })
    );
    assert_eq!(i2c::Error::maybe_err(&mut Cursor::new(&[11])), Ok(()));
}

#[test]
fn two_bytes_spell_a_little_endian_word() {
    let mut cursor = Cursor::new(&[0x34, 0x12]);
    assert_eq!(u16::new_fuzzed(&mut cursor), Ok(0x1234));
    assert_eq!(cursor.consumed(), 2);
}

#[test]
fn each_width_decodes_least_significant_byte_first() {
    let data: Vec<u8> = (1..=16u8).collect();
    assert_eq!(u8::new_fuzzed(&mut Cursor::new(&data)), Ok(0x01));
    assert_eq!(u16::new_fuzzed(&mut Cursor::new(&data)), Ok(0x0201));
    assert_eq!(u32::new_fuzzed(&mut Cursor::new(&data)), Ok(0x0403_0201));
    assert_eq!(u64::new_fuzzed(&mut Cursor::new(&data)), Ok(0x0807_0605_0403_0201));
    assert_eq!(
        u128::new_fuzzed(&mut Cursor::new(&data)),
        Ok(0x100f_0e0d_0c0b_0a09_0807_0605_0403_0201)
    );
}

#[test]
fn words_survive_the_round_trip() {
    for value in [0u16, 1, 0x1234, 0x00ff, 0xff00, u16::MAX] {
        assert_eq!(u16::new_fuzzed(&mut Cursor::new(&value.to_le_bytes())), Ok(value));
    }
    for value in [0u32, 1, 0x1234_5678, 0x8000_0000, u32::MAX] {
        assert_eq!(u32::new_fuzzed(&mut Cursor::new(&value.to_le_bytes())), Ok(value));
    }
    for value in [0u64, 1, 0x0123_4567_89ab_cdef, 1 << 63, u64::MAX] {
        assert_eq!(u64::new_fuzzed(&mut Cursor::new(&value.to_le_bytes())), Ok(value));
    }
    for value in [0u128, 1, 0x0123_4567_89ab_cdef_0011_2233_4455_6677, 1 << 127, u128::MAX] {
        assert_eq!(u128::new_fuzzed(&mut Cursor::new(&value.to_le_bytes())), Ok(value));
    }
    for value in 0..=255u8 {
        assert_eq!(u8::new_fuzzed(&mut Cursor::new(&value.to_le_bytes())), Ok(value));
    }
}

#[test]
fn every_u16_survives_the_round_trip() {
    for value in 0..=u16::MAX {
        let mut bytes = value.to_le_bytes().to_vec();
        bytes.push(0xaa);
        let mut cursor = Cursor::new(&bytes);
        assert_eq!(u16::new_fuzzed(&mut cursor), Ok(value));
        assert_eq!(cursor.next_byte(), Some(0xaa));
    }
}

#[test]
fn a_truncated_word_fails_and_uses_the_input_up() {
    let mut cursor = Cursor::new(&[0x34]);
    assert_eq!(u16::new_fuzzed(&mut cursor), Err(ConversionError));
    assert_eq!(cursor.remaining(), 0);
    let mut cursor = Cursor::new(&[1, 2, 3]);
    assert_eq!(u32::new_fuzzed(&mut cursor), Err(ConversionError));
    assert_eq!(cursor.remaining(), 0);
    let mut cursor = Cursor::new(&[1, 2, 3, 4, 5, 6, 7]);
    assert_eq!(u64::new_fuzzed(&mut cursor), Err(ConversionError));
    let mut cursor = Cursor::new(&[0; 15]);
    assert_eq!(u128::new_fuzzed(&mut cursor), Err(ConversionError));
    let mut cursor = Cursor::new(&[]);
    assert_eq!(u8::new_fuzzed(&mut cursor), Err(ConversionError));
    assert_eq!(u16::new_fuzzed(&mut cursor), Err(ConversionError));
}

#[test]
fn words_are_decoded_one_after_the_other() {
    let data = [0x01u8, 0x02, 0x03, 0x04, 0x05, 0x06, 0x07];
    let mut cursor = Cursor::new(&data);
    assert_eq!(u8::new_fuzzed(&mut cursor), Ok(0x01));
    assert_eq!(u16::new_fuzzed(&mut cursor), Ok(0x0302));
    assert_eq!(u32::new_fuzzed(&mut cursor), Ok(0x0706_0504));
    assert_eq!(u8::new_fuzzed(&mut cursor), Err(ConversionError));
}

#[test]
fn a_buffer_is_taken_whole_or_not_at_all() {
    let data = [1u8, 2, 3, 4, 5];
    let mut cursor = Cursor::new(&data);
    assert_eq!(try_get_buffer::<2>(&mut cursor), Ok([1, 2]));
    assert_eq!(try_get_buffer::<0>(&mut cursor), Ok([]));
    assert_eq!(cursor.consumed(), 2);
    assert_eq!(try_get_buffer::<3>(&mut cursor), Ok([3, 4, 5]));
    assert_eq!(try_get_buffer::<1>(&mut cursor), Err(ConversionError));
    let mut cursor = Cursor::new(&data);
    assert_eq!(try_get_buffer::<6>(&mut cursor), Err(ConversionError));
    assert_eq!(cursor.remaining(), 0);
}

#[test]
fn decoding_reads_up_to_sixteen_bytes() {
    assert_eq!(le_decode(&[]), 0);
    assert_eq!(le_decode(&[0x7f]), 0x7f);
    assert_eq!(le_decode(&[0x34, 0x12]), 0x1234);
    assert_eq!(le_decode(&[0x01, 0x00, 0x00]), 1);
    assert_eq!(le_decode(&[0x00, 0x00, 0x01]), 0x1_0000);
    assert_eq!(le_decode(&[0xff; 16]), u128::MAX);
    assert_eq!(le_decode(&0x0123_4567_89ab_cdefu64.to_le_bytes()), 0x0123_4567_89ab_cdef);
}
