use embedded_hal_fuzz::cursor::Cursor;
use embedded_hal_fuzz::i2c::{ArbitraryI2c, Error, ErrorKind, NoAcknowledgeSource, Operation};
use embedded_hal_fuzz::shared_data::FuzzData;

#[test]
fn a_read_copies_the_next_bytes_in_order() {
    let input = [0x01u8, 0xaa, 0xbb, 0xcc, 0xdd];
    let data = FuzzData::new(&input);
    let mut bus: ArbitraryI2c<'_, u8> = ArbitraryI2c::new(data.clone());
    let mut buffer = [0u8; 3];
    assert_eq!(bus.read(0x10, &mut buffer), Ok(()));
    assert_eq!(buffer, [0xaa, 0xbb, 0xcc]);
    assert_eq!(data.next_byte(), Some(0xdd));
}

#[test]
fn a_read_of_nothing_takes_the_decision_only() {
    let input = [0x01u8, 0xaa];
    let data = FuzzData::new(&input);
    let mut bus: ArbitraryI2c<'_, u16> = ArbitraryI2c::new(data.clone());
    let mut buffer: [u8; 0] = [];
    assert_eq!(bus.read(0x3ff, &mut buffer), Ok(()));
    assert_eq!(data.next_byte(), Some(0xaa));
}

#[test]
fn a_short_read_is_the_fallback_error_and_leaves_the_buffer() {
    let input = [0x01u8, 0xaa, 0xbb];
    let data = FuzzData::new(&input);
    let mut bus: ArbitraryI2c<'_, u8> = ArbitraryI2c::new(data.clone());
    let mut buffer = [7u8; 3];
    assert_eq!(bus.read(0x10, &mut buffer), Err(Error { kind: ErrorKind::Other }));
    assert_eq!(buffer, [7, 7, 7]);
    assert_eq!(data.next_byte(), None);
}

#[test]
fn an_injected_error_leaves_the_buffer_and_the_payload() {
    let input = [0x00u8, 0x01, 0xaa];
    let mut bus: ArbitraryI2c<'_, u8> = ArbitraryI2c::new(FuzzData::new(&input));
    let mut buffer = [7u8; 1];
    assert_eq!(bus.read(0x10, &mut buffer), Err(Error { kind: ErrorKind::Bus }));
    assert_eq!(buffer, [7]);
    assert_eq!(bus.read(0x10, &mut buffer), Ok(()));
    assert_eq!(buffer, [0xaa]);
}

#[test]
fn i2c_every_kind_is_injected() {
    let cases = [
        (0u8, ErrorKind::Bus),
        (2, ErrorKind::ArbitrationLoss),
        (4, ErrorKind::NoAcknowledge(NoAcknowledgeSource::Address)),
        (6, ErrorKind::NoAcknowledge(NoAcknowledgeSource::Data)),
        (8, ErrorKind::NoAcknowledge(NoAcknowledgeSource::Unknown)),
        (10, ErrorKind::Overrun),
        (12, ErrorKind::Other),
    ];
    for (byte, kind) in cases {
        let input = [byte];
        let mut bus: ArbitraryI2c<'_, u8> = ArbitraryI2c::new(FuzzData::new(&input));
        let outcome = bus.write(0x10, &[1, 2, 3]);
        assert_eq!(outcome, Err(Error { kind }));
        assert_eq!(outcome.unwrap_err().kind(), kind);
    }
}

#[test]
fn a_write_takes_the_decision_only() {
    let input = [0x01u8, 0x03, 0xaa];
    let data = FuzzData::new(&input);
    let mut bus: ArbitraryI2c<'_, u8> = ArbitraryI2c::new(data.clone());
    assert_eq!(bus.write(0x10, &[1, 2, 3, 4]), Ok(()));
    assert_eq!(bus.write(0x10, &[]), Ok(()));
    assert_eq!(data.next_byte(), Some(0xaa));
}

#[test]
fn a_write_read_reads_as_a_read_does() {
    let input = [0x01u8, 0xaa, 0x01, 0xbb];
    let mut bus: ArbitraryI2c<'_, u8> = ArbitraryI2c::new(FuzzData::new(&input));
    let mut buffer = [0u8; 1];
    assert_eq!(bus.read(0x01, &mut buffer), Ok(()));
    assert_eq!(buffer, [0xaa]);
    assert_eq!(bus.write_read(0x01, &[1, 2, 3, 4], &mut buffer), Ok(()));
    assert_eq!(buffer, [0xbb]);
    assert_eq!(bus.write_read(0x01, &[1], &mut buffer), Err(Error { kind: ErrorKind::Other }));
}

#[test]
fn a_transaction_serves_its_reads_in_order() {
    let input = [0x01u8, 1, 2, 3, 4, 5];
    let data = FuzzData::new(&input);
    let mut bus: ArbitraryI2c<'_, u8> = ArbitraryI2c::new(data.clone());
    let mut operations = [
        Operation::Write(vec![9, 9]),
        Operation::Read(vec![0; 2]),
        Operation::Read(vec![]),
        Operation::Write(vec![]),
        Operation::Read(vec![0; 1]),
    ];
    assert_eq!(bus.transaction(0x10, &mut operations), Ok(()));
    assert_eq!(
        operations,
        [
            Operation::Write(vec![9, 9]),
            Operation::Read(vec![1, 2]),
            Operation::Read(vec![]),
            Operation::Write(vec![]),
            Operation::Read(vec![3]),
        ]
    );
    assert_eq!(data.next_chunk(9), &[4, 5]);
}

#[test]
fn a_transaction_stops_at_the_first_read_it_cannot_fill() {
    let input = [0x01u8, 1, 2, 3];
    let data = FuzzData::new(&input);
    let mut bus: ArbitraryI2c<'_, u8> = ArbitraryI2c::new(data.clone());
    let mut operations = [
        Operation::Read(vec![0; 2]),
        Operation::Read(vec![7; 2]),
        Operation::Read(vec![8; 1]),
    ];
    assert_eq!(bus.transaction(0x10, &mut operations), Err(Error { kind: ErrorKind::Other }));
    assert_eq!(
        operations,
        [Operation::Read(vec![1, 2]), Operation::Read(vec![7, 7]), Operation::Read(vec![8])]
    );
    assert_eq!(data.next_byte(), None);
}

#[test]
fn an_injected_error_leaves_the_operations() {
    let input = [0x0au8, 1, 2, 3];
    let mut cursor = Cursor::new(&input);
    let mut operations = [Operation::Read(vec![0; 2]), Operation::Write(vec![5])];
    assert_eq!(
        ArbitraryI2c::<u8>::exchange(&mut cursor, &mut operations),
        Err(Error { kind: ErrorKind::Overrun })
    );
    assert_eq!(operations, [Operation::Read(vec![0; 2]), Operation::Write(vec![5])]);
    assert_eq!(cursor.consumed(), 1);
}

#[test]
fn a_transaction_of_writes_or_of_nothing_takes_the_decision_only() {
    let input = [0x01u8, 0x01, 0x00];
    let mut cursor = Cursor::new(&input);
    let mut operations = [Operation::Write(vec![1]), Operation::Write(vec![2, 3])];
    assert_eq!(ArbitraryI2c::<u8>::exchange(&mut cursor, &mut operations), Ok(()));
    assert_eq!(cursor.consumed(), 1);
    assert_eq!(ArbitraryI2c::<u8>::exchange(&mut cursor, &mut []), Ok(()));
    assert_eq!(cursor.consumed(), 2);
    assert_eq!(
        ArbitraryI2c::<u8>::exchange(&mut cursor, &mut []),
        Err(Error { kind: ErrorKind::Bus })
    );
    assert_eq!(cursor.consumed(), 3);
}

#[test]
fn a_read_is_the_transaction_of_one_read() {
    let input = [0x01u8, 1, 2, 3, 0x01, 4];
    let mut by_read = Cursor::new(&input);
    let mut by_transaction = Cursor::new(&input);
    for len in [3usize, 1, 1] {
        let mut buffer = vec![0u8; len];
        let mut operations = [Operation::Read(vec![0u8; len])];
        let read = ArbitraryI2c::<u8>::receive(&mut by_read, &mut buffer);
        let transaction = ArbitraryI2c::<u8>::exchange(&mut by_transaction, &mut operations);
        assert_eq!(read, transaction);
        assert_eq!(operations, [Operation::Read(buffer)]);
        assert_eq!(by_read.consumed(), by_transaction.consumed());
    }
}

#[test]
fn i2c_an_empty_input_is_the_fallback_error() {
    let mut bus: ArbitraryI2c<'_, u8> = ArbitraryI2c::new(FuzzData::new(&[]));
    let mut buffer = [7u8; 2];
    let mut operations = [Operation::Read(vec![7; 2])];
    assert_eq!(bus.read(1, &mut buffer), Err(Error::default()));
    assert_eq!(bus.write(1, &[1]), Err(Error::default()));
    assert_eq!(bus.write_read(1, &[1], &mut buffer), Err(Error::default()));
    assert_eq!(bus.transaction(1, &mut operations), Err(Error { kind: ErrorKind::Other }));
    assert_eq!(buffer, [7, 7]);
    assert_eq!(operations, [Operation::Read(vec![7; 2])]);
}
