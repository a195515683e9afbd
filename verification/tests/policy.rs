use embedded_hal_fuzz::cursor::Cursor;
use embedded_hal_fuzz::digital;
use embedded_hal_fuzz::error::{fallback_error, injects_error, FuzzedError};
use embedded_hal_fuzz::i2c;
use embedded_hal_fuzz::pwm;
use embedded_hal_fuzz::spi;

#[test]
fn error_unit_error() {
    let average_errors = (0..255u8)
        .map(|x| <()>::new_err(&mut Cursor::new(&[x.into()])))
        .filter(|x| x.is_some())
        .count();
    assert_eq!(average_errors, 255 / 2 + 1);
}

#[test]
fn the_unit_policy_fails_on_128_of_256_bytes() {
    let errors = (0..=255u8)
        .filter(|x| <()>::new_err(&mut Cursor::new(&[*x])).is_some())
        .count();
    assert_eq!(errors, 128);
}

#[test]
fn the_unit_policy_fails_on_a_clear_lowest_bit() {
    assert_eq!(<()>::new_err(&mut Cursor::new(&[0x00])), Some(()));
    assert_eq!(<()>::new_err(&mut Cursor::new(&[0x01])), None);
    assert_eq!(<()>::new_err(&mut Cursor::new(&[0xfe])), Some(()));
    assert_eq!(<()>::new_err(&mut Cursor::new(&[0xff])), None);
    assert!(injects_error(0));
    assert!(!injects_error(1));
    assert!(injects_error(254));
    assert!(!injects_error(255));
}

#[test]
fn a_decision_takes_one_byte() {
    let data = [0x00u8, 0x01, 0x02];
    let mut cursor = Cursor::new(&data);
    assert_eq!(<()>::new_err(&mut cursor), Some(()));
    assert_eq!(cursor.consumed(), 1);
    assert_eq!(<()>::new_err(&mut cursor), None);
    assert_eq!(cursor.consumed(), 2);
    assert_eq!(
        i2c::Error::new_err(&mut cursor),
        Some(i2c::Error { kind: i2c::ErrorKind::ArbitrationLoss })
    );
    assert_eq!(cursor.consumed(), 3);
}

#[test]
fn exhausted_input_gives_the_fallback_error() {
    let mut cursor = Cursor::new(&[]);
    assert_eq!(<()>::new_err(&mut cursor), Some(()));
    assert_eq!(digital::Error::new_err(&mut cursor), Some(digital::Error));
    assert_eq!(i2c::Error::new_err(&mut cursor), Some(i2c::Error { kind: i2c::ErrorKind::Other }));
    assert_eq!(spi::Error::new_err(&mut cursor), Some(spi::Error { kind: spi::ErrorKind::Other }));
    assert_eq!(pwm::Error::new_err(&mut cursor), Some(pwm::Error { kind: pwm::ErrorKind::Other }));
    assert_eq!(cursor.consumed(), 0);
}

#[test]
fn the_fallback_error_is_the_default() {
    assert_eq!(fallback_error::<()>(), ());
    assert_eq!(fallback_error::<digital::Error>(), digital::Error);
    assert_eq!(fallback_error::<i2c::Error>(), i2c::Error::default());
    assert_eq!(fallback_error::<i2c::Error>().kind(), i2c::ErrorKind::Other);
    assert_eq!(fallback_error::<spi::Error>().kind(), spi::ErrorKind::Other);
    assert_eq!(fallback_error::<pwm::Error>().kind(), pwm::ErrorKind::Other);
}

#[test]
fn the_i2c_policy_maps_bytes_round_the_kinds() {
    let kinds = [
        i2c::ErrorKind::Bus,
        i2c::ErrorKind::ArbitrationLoss,
        i2c::ErrorKind::NoAcknowledge(i2c::NoAcknowledgeSource::Address),
        i2c::ErrorKind::NoAcknowledge(i2c::NoAcknowledgeSource::Data),
        i2c::ErrorKind::NoAcknowledge(i2c::NoAcknowledgeSource::Unknown),
        i2c::ErrorKind::Overrun,
        i2c::ErrorKind::Other,
    ];
    for byte in 0..=255u8 {
        let outcome = i2c::Error::new_err(&mut Cursor::new(&[byte]));
        if byte % 2 == 0 {
            let kind = kinds[(byte / 2) as usize % 7];
            assert_eq!(outcome, Some(i2c::Error { kind }));
        } else {
            assert_eq!(outcome, None);
        }
    }
    assert_eq!(
        i2c::Error::new_err(&mut Cursor::new(&[14])),
        Some(i2c::Error { kind: i2c::ErrorKind::Bus })
    );
    assert_eq!(
        i2c::Error::new_err(&mut Cursor::new(&[254])),
        Some(i2c::Error { kind: i2c::ErrorKind::ArbitrationLoss })
    );
}

#[test]
fn the_spi_policy_maps_bytes_round_the_kinds() {
    let kinds = [
        spi::ErrorKind::Overrun,
        spi::ErrorKind::ModeFault,
        spi::ErrorKind::FrameFormat,
        spi::ErrorKind::ChipSelectFault,
        spi::ErrorKind::Other,
    ];
    for byte in 0..=255u8 {
        let outcome = spi::Error::new_err(&mut Cursor::new(&[byte]));
        if byte % 2 == 0 {
            let kind = kinds[(byte / 2) as usize % 5];
            assert_eq!(outcome, Some(spi::Error { kind }));
        } else {
            assert_eq!(outcome, None);
        }
    }
    assert_eq!(
        spi::Error::new_err(&mut Cursor::new(&[10])),
        Some(spi::Error { kind: spi::ErrorKind::Overrun })
    );
}

#[test]
fn every_policy_fails_on_half_of_the_bytes() {
    let pins = (0..=255u8)
        .filter(|x| digital::Error::new_err(&mut Cursor::new(&[*x])).is_some())
        .count();
    let i2c = (0..=255u8)
        .filter(|x| i2c::Error::new_err(&mut Cursor::new(&[*x])).is_some())
        .count();
    let spi = (0..=255u8)
        .filter(|x| spi::Error::new_err(&mut Cursor::new(&[*x])).is_some())
        .count();
    let pwm = (0..=255u8)
        .filter(|x| pwm::Error::new_err(&mut Cursor::new(&[*x])).is_some())
        .count();
    assert_eq!((pins, i2c, spi, pwm), (128, 128, 128, 128));
}

#[test]
fn kinds_are_selected_by_number() {
    assert_eq!(i2c::ErrorKind::select(0), i2c::ErrorKind::Bus);
    assert_eq!(i2c::ErrorKind::select(5), i2c::ErrorKind::Overrun);
    assert_eq!(i2c::ErrorKind::select(6), i2c::ErrorKind::Other);
    assert_eq!(i2c::ErrorKind::select(7), i2c::ErrorKind::Bus);
    assert_eq!(i2c::ErrorKind::select(usize::MAX), i2c::ErrorKind::select(usize::MAX % 7));
    assert_eq!(spi::ErrorKind::select(0), spi::ErrorKind::Overrun);
    assert_eq!(spi::ErrorKind::select(4), spi::ErrorKind::Other);
    assert_eq!(spi::ErrorKind::select(5), spi::ErrorKind::Overrun);
    assert_eq!(spi::ErrorKind::select(13), spi::ErrorKind::ChipSelectFault);
}
