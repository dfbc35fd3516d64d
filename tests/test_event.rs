use casper_event_standard::cl_type::CLType;
use casper_event_standard::record::{event_bytes, event_fields, full_name, try_full_name_from_bytes};
use casper_event_standard::schema::{EventInstance, Schema};
use casper_event_standard::example::transfer_schema;
use casper_types::bytesrepr::{FromBytes, ToBytes};
use casper_types::{Key, U256};

#[derive(Debug, PartialEq)]
struct Transfer {
    amount: U256,
    from: Key,
    to: Key,
}

impl Transfer {
    fn to_bytes(&self) -> Vec<u8> {
        let fields = vec![
            self.amount.to_bytes().unwrap(),
            self.from.to_bytes().unwrap(),
            self.to.to_bytes().unwrap(),
        ];
        event_bytes("Transfer", &fields).unwrap()
    }

    fn from_bytes(bytes: &[u8]) -> (Transfer, &[u8]) {
        let rest = event_fields(bytes, "Transfer").unwrap();
        let (amount, rest) = U256::from_bytes(rest).unwrap();
        let (from, rest) = Key::from_bytes(rest).unwrap();
        let (to, rest) = Key::from_bytes(rest).unwrap();
        (Transfer { amount, from, to }, rest)
    }
}

impl EventInstance for Transfer {
    fn name() -> String {
        String::from("Transfer")
    }

    fn schema() -> Schema {
        transfer_schema()
    }
}

fn mock_transfer() -> Transfer {
    Transfer {
        amount: U256::from(123),
        from: Key::from_formatted_str(
            "hash-1111111111111111111111111111111111111111111111111111111111111111",
        )
        .unwrap(),
        to: Key::from_formatted_str(
            "hash-2222222222222222222222222222222222222222222222222222222222222222",
        )
        .unwrap(),
    }
}

#[test]
fn test_event_serialization() {
    let expected = mock_transfer();
    let bytes = expected.to_bytes();
    let (result, bytes) = Transfer::from_bytes(&bytes);
    assert!(bytes.is_empty());
    assert_eq!(result, expected);
}

#[test]
fn test_event_name() {
    let transfer = mock_transfer();
    assert_eq!(Transfer::name(), "Transfer");
    let bytes = transfer.to_bytes();
    let full_name = try_full_name_from_bytes(&bytes).unwrap();
    assert_eq!(&full_name, "event_Transfer");
}

#[test]
fn test_event_schema() {
    let mut expected_schema = Schema::new();
    expected_schema.with_elem("amount", CLType::U256);
    expected_schema.with_elem("from", CLType::Key);
    expected_schema.with_elem("to", CLType::Key);
    assert_eq!(Transfer::schema(), expected_schema);
}

#[test]
fn transfer_encodes_to_name_then_fields() {
    let t = mock_transfer();
    let bytes = t.to_bytes();
    let mut expected: Vec<u8> = vec![14, 0, 0, 0];
    expected.extend_from_slice(b"event_Transfer");
    expected.extend_from_slice(&[1, 123]);
    expected.push(1);
    expected.extend_from_slice(&[0x11; 32]);
    expected.push(1);
    expected.extend_from_slice(&[0x22; 32]);
    assert_eq!(bytes, expected);
}

#[test]
fn transfer_schema_bytes() {
    let bytes = transfer_schema().to_bytes().unwrap();
    let mut expected: Vec<u8> = vec![3, 0, 0, 0];
    expected.extend_from_slice(&[6, 0, 0, 0]);
    expected.extend_from_slice(b"amount");
    expected.push(7);
    expected.extend_from_slice(&[4, 0, 0, 0]);
    expected.extend_from_slice(b"from");
    expected.push(11);
    expected.extend_from_slice(&[2, 0, 0, 0]);
    expected.extend_from_slice(b"to");
    expected.push(11);
    assert_eq!(bytes, expected);
}

#[test]
fn full_name_has_prefix() {
    assert_eq!(full_name("Transfer"), "event_Transfer");
    assert_eq!(full_name(""), "event_");
}

#[test]
fn wrong_event_name_is_rejected() {
    let bytes = mock_transfer().to_bytes();
    assert_eq!(
        event_fields(&bytes, "Mint"),
        Err(casper_event_standard::bytesrepr::Error::Formatting)
    );
}

#[test]
fn truncated_name_fails() {
    let bytes = mock_transfer().to_bytes();
    assert_eq!(
        try_full_name_from_bytes(&bytes[..10]),
        Err(casper_event_standard::bytesrepr::Error::EarlyEndOfStream)
    );
    assert_eq!(
        try_full_name_from_bytes(&bytes[..2]),
        Err(casper_event_standard::bytesrepr::Error::EarlyEndOfStream)
    );
}

#[test]
fn invalid_utf8_name_fails() {
    let bytes = vec![2, 0, 0, 0, 0xff, 0xfe];
    assert_eq!(
        try_full_name_from_bytes(&bytes),
        Err(casper_event_standard::bytesrepr::Error::Formatting)
    );
}

#[test]
fn schema_round_trips_through_bytes() {
    let schema = transfer_schema();
    let mut bytes = schema.to_bytes().unwrap();
    assert_eq!(schema.serialized_length(), bytes.len());
    bytes.push(42);
    let (decoded, rest) = Schema::from_bytes(&bytes).unwrap();
    assert_eq!(decoded, schema);
    assert_eq!(rest, &[42]);
}

#[test]
fn truncated_schema_fails() {
    let bytes = transfer_schema().to_bytes().unwrap();
    assert_eq!(
        Schema::from_bytes(&bytes[..bytes.len() - 1]).unwrap_err(),
        casper_event_standard::bytesrepr::Error::EarlyEndOfStream
    );
}

#[test]
fn empty_schema_encodes_to_zero_count() {
    assert_eq!(Schema::new().to_bytes().unwrap(), vec![0, 0, 0, 0]);
    assert_ne!(Schema::new(), transfer_schema());
}
