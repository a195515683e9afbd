use embedded_hal_fuzz::adc::{AdcFuzz, DummyPin};
use embedded_hal_fuzz::cursor::Cursor;
use embedded_hal_fuzz::digital::ArbitraryInputPin;
use embedded_hal_fuzz::error::Blocking;
use embedded_hal_fuzz::fuzzed_type::Fuzzed;
use embedded_hal_fuzz::i2c::ArbitraryI2c;
use embedded_hal_fuzz::serial::SerialFuzz;
use embedded_hal_fuzz::shared_data::FuzzData;
use embedded_hal_fuzz::spi::ArbitrarySpiBus;

#[test]
fn a_handle_hands_the_input_out_in_order() {
    let input = [1u8, 2, 3, 4, 5];
    let data = FuzzData::new(&input);
    assert_eq!(data.next_byte(), Some(1));
    assert_eq!(data.next_chunk(3), &[2, 3, 4]);
    assert_eq!(data.next_chunk(3), &[5]);
    assert_eq!(data.next_chunk(3), &[] as &[u8]);
    assert_eq!(data.next_byte(), None);
}

#[test]
fn clones_share_one_position() {
    let input = [1u8, 2, 3, 4, 5, 6];
    let first = FuzzData::new(&input);
    let second = first.clone();
    let third = second.clone();
    assert_eq!(first.next_byte(), Some(1));
    assert_eq!(second.next_byte(), Some(2));
    assert_eq!(third.next_chunk(2), &[3, 4]);
    assert_eq!(first.next_byte(), Some(5));
    drop(first);
    assert_eq!(third.next_byte(), Some(6));
    assert_eq!(second.next_byte(), None);
}

#[test]
fn handles_of_their_own_do_not_share() {
    let input = [1u8, 2, 3];
    let first = FuzzData::new(&input);
    let second = FuzzData::new(&input);
    assert_eq!(first.next_byte(), Some(1));
    assert_eq!(second.next_byte(), Some(1));
}

#[test]
fn a_second_claim_is_refused_while_the_first_is_out() {
    let input = [1u8, 2, 3];
    let data = FuzzData::new(&input);
    let other = data.clone();
    let claim = data.try_claim();
    assert!(claim.is_some());
    assert!(data.try_claim().is_none());
    assert!(other.try_claim().is_none());
    assert_eq!(other.next_byte(), None);
    assert_eq!(other.next_chunk(2), &[] as &[u8]);
    drop(claim);
    assert!(other.try_claim().is_some());
    assert_eq!(other.next_byte(), Some(1));
}

#[test]
fn a_released_claim_stores_the_position() {
    let input = [1u8, 2, 3, 4];
    let data = FuzzData::new(&input);
    let mut claim = data.try_claim().unwrap();
    assert_eq!(claim.cursor_mut().next_chunk(3), &[1, 2, 3]);
    claim.release();
    assert_eq!(data.next_byte(), Some(4));
}

#[test]
fn a_dropped_claim_leaves_the_position() {
    let input = [1u8, 2, 3, 4];
    let data = FuzzData::new(&input);
    assert_eq!(data.next_byte(), Some(1));
    let mut claim = data.try_claim().unwrap();
    assert_eq!(claim.cursor_mut().next_chunk(2), &[2, 3]);
    drop(claim);
    assert_eq!(data.next_byte(), Some(2));
}

#[test]
fn a_refused_claim_reads_as_exhausted_input_and_moves_nothing() {
    let input = [0x01u8, 0x34, 0x12, 0x01, 0x07];
    let data = FuzzData::new(&input);
    let mut adc: AdcFuzz<'_, ()> = AdcFuzz::new(data.clone());
    let mut serial: SerialFuzz<'_, ()> = SerialFuzz::new(data.clone());
    let pin = ArbitraryInputPin::new(data.clone());
    let claim = data.try_claim().unwrap();
    assert_eq!(adc.read::<u16, DummyPin>(&mut DummyPin {}), Err(Blocking::Other(())));
    assert_eq!(serial.read(), Err(Blocking::WouldBlock));
    assert_eq!(serial.write(&[1, 2]), Err(()));
    assert!(pin.is_high().is_err());
    drop(claim);
    assert_eq!(adc.read::<u16, DummyPin>(&mut DummyPin {}), Ok(0x1234));
    assert_eq!(serial.read(), Ok(0x07));
}

#[test]
fn two_peripherals_read_what_one_cursor_would() {
    let input = [0x01u8, 0x05, 0x03, 0x34, 0x12, 0x07, 0x99, 0x55];
    let data = FuzzData::new(&input);
    let pin = ArbitraryInputPin::new(data.clone());
    let mut spi: ArbitrarySpiBus<'_, u8> = ArbitrarySpiBus::new(data.clone());
    assert_eq!(pin.is_high(), Ok(true));
    let mut buffer = [0u8; 2];
    assert_eq!(spi.transfer_in_place(&mut buffer), Ok(()));
    assert_eq!(buffer, [0x34, 0x12]);
    assert_eq!(pin.is_high(), Ok(false));
    assert_eq!(data.next_chunk(8), &[0x55]);

    let mut alone = Cursor::new(&input);
    assert_eq!(ArbitraryInputPin::level(&mut alone), Ok(true));
    let mut words = [0u8; 2];
    assert_eq!(ArbitrarySpiBus::<u8>::receive(&mut alone, &mut words), Ok(()));
    assert_eq!(words, buffer);
    assert_eq!(ArbitraryInputPin::level(&mut alone), Ok(false));
    assert_eq!(alone.consumed(), 7);
    assert_eq!(alone.next_chunk(8), &[0x55]);
}

#[test]
fn the_order_of_the_calls_decides_who_reads_what() {
    let input = [0x01u8, 0x11, 0x01, 0x22];
    let data = FuzzData::new(&input);
    let mut adc: AdcFuzz<'_, ()> = AdcFuzz::new(data.clone());
    let mut i2c: ArbitraryI2c<'_, u8> = ArbitraryI2c::new(data.clone());
    let mut byte = [0u8; 1];
    assert_eq!(adc.read::<u8, DummyPin>(&mut DummyPin {}), Ok(0x11));
    assert_eq!(i2c.read(0x42, &mut byte), Ok(()));
    assert_eq!(byte, [0x22]);

    let data = FuzzData::new(&input);
    let mut adc: AdcFuzz<'_, ()> = AdcFuzz::new(data.clone());
    let mut i2c: ArbitraryI2c<'_, u8> = ArbitraryI2c::new(data.clone());
    assert_eq!(i2c.read(0x42, &mut byte), Ok(()));
    assert_eq!(byte, [0x11]);
    assert_eq!(adc.read::<u8, DummyPin>(&mut DummyPin {}), Ok(0x22));
}

#[test]
fn shared_and_single_use_take_the_same_number_of_bytes() {
    let input: Vec<u8> = (0..64u8).map(|x| x.wrapping_mul(37).wrapping_add(1)).collect();
    let data = FuzzData::new(&input);
    let pin = ArbitraryInputPin::new(data.clone());
    let mut spi: ArbitrarySpiBus<'_, u16> = ArbitrarySpiBus::new(data.clone());
    let mut alone = Cursor::new(&input);
    for round in 0..12 {
        let mut shared_words = [0u16; 2];
        let mut single_words = [0u16; 2];
        if round % 3 == 0 {
            assert_eq!(pin.is_high(), ArbitraryInputPin::level(&mut alone));
        } else {
            assert_eq!(
                spi.read(&mut shared_words),
                ArbitrarySpiBus::<u16>::receive(&mut alone, &mut single_words)
            );
            assert_eq!(shared_words, single_words);
        }
    }
    let left = data.next_chunk(usize::MAX);
    assert_eq!(left.len(), alone.remaining());
    assert_eq!(left, alone.next_chunk(usize::MAX));
    assert_eq!(u8::new_fuzzed(&mut alone).is_err(), true);
}
