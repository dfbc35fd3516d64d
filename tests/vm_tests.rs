use casper_event_standard::example::{call, example_schemas, mint_schema, transfer_schema};
use casper_event_standard::log::{
    check_init, emit, emit_bytes, init, next_length, read_event, EventLog, LogError, CES_VERSION,
};
use casper_event_standard::record::event_bytes;
use casper_event_standard::schema::{EventInstance, Schema, Schemas};
use casper_types::bytesrepr::{FromBytes, ToBytes};
use casper_types::{Key, U256};

struct Transfer;

impl EventInstance for Transfer {
    fn name() -> String {
        String::from("Transfer")
    }

    fn schema() -> Schema {
        transfer_schema()
    }
}

struct Mint;

impl EventInstance for Mint {
    fn name() -> String {
        String::from("Mint")
    }

    fn schema() -> Schema {
        mint_schema()
    }
}

fn key(s: &str) -> Key {
    Key::from_formatted_str(s).unwrap()
}

fn transfer_fields(amount: u64, from: &str, to: &str) -> Vec<Vec<u8>> {
    vec![
        U256::from(amount).to_bytes().unwrap(),
        key(from).to_bytes().unwrap(),
        key(to).to_bytes().unwrap(),
    ]
}

fn mint_fields(account: &str, amount: u64) -> Vec<Vec<u8>> {
    vec![key(account).to_bytes().unwrap(), U256::from(amount).to_bytes().unwrap()]
}

const H1: &str = "hash-1111111111111111111111111111111111111111111111111111111111111111";
const H2: &str = "hash-2222222222222222222222222222222222222222222222222222222222222222";
const H3: &str = "hash-3333333333333333333333333333333333333333333333333333333333333333";
const H4: &str = "hash-4444444444444444444444444444444444444444444444444444444444444444";
const H5: &str = "hash-5555555555555555555555555555555555555555555555555555555555555555";
const H6: &str = "hash-6666666666666666666666666666666666666666666666666666666666666666";

fn read_transfer(log: &EventLog, i: u32) -> (U256, Key, Key) {
    let rest = read_event(log, i, "Transfer").unwrap();
    let (amount, rest) = U256::from_bytes(rest).unwrap();
    let (from, rest) = Key::from_bytes(rest).unwrap();
    let (to, rest) = Key::from_bytes(rest).unwrap();
    assert!(rest.is_empty());
    (amount, from, to)
}

fn read_mint(log: &EventLog, i: u32) -> (Key, U256) {
    let rest = read_event(log, i, "Mint").unwrap();
    let (account, rest) = Key::from_bytes(rest).unwrap();
    let (amount, rest) = U256::from_bytes(rest).unwrap();
    assert!(rest.is_empty());
    (account, amount)
}

#[test]
fn test_events_initalization() {
    let mut log = EventLog::new();
    call(&mut log).unwrap();

    assert_eq!(log.length(), Some(0));
    assert_eq!(log.version().unwrap(), CES_VERSION);
    assert!(log.schema_bytes().is_some());
    assert!(log.event_at(0).is_none());

    let (schemas, rest) = Schemas::from_bytes(log.schema_bytes().unwrap()).unwrap();
    assert!(rest.is_empty());
    let mut expected_schemas = Schemas::new();
    expected_schemas.add::<Transfer>();
    expected_schemas.add::<Mint>();
    assert_eq!(schemas, expected_schemas);
}

#[test]
fn test_events_emission() {
    let mut log = EventLog::new();
    call(&mut log).unwrap();

    assert_eq!(emit(&mut log, "Transfer", &transfer_fields(123, H1, H2)), Ok(0));
    assert_eq!(emit(&mut log, "Transfer", &transfer_fields(234, H3, H4)), Ok(1));
    assert_eq!(emit(&mut log, "Mint", &mint_fields(H5, 345)), Ok(2));
    let bytes = event_bytes("Mint", &mint_fields(H6, 456)).unwrap();
    assert_eq!(emit_bytes(&mut log, bytes), Ok(3));

    assert_eq!(log.length(), Some(4));
    assert_eq!(read_transfer(&log, 0), (U256::from(123), key(H1), key(H2)));
    assert_eq!(read_transfer(&log, 1), (U256::from(234), key(H3), key(H4)));
    assert_eq!(read_mint(&log, 2), (key(H5), U256::from(345)));
    assert_eq!(read_mint(&log, 3), (key(H6), U256::from(456)));
}

#[test]
fn appended_bytes_are_kept_verbatim() {
    let mut log = EventLog::new();
    init(&mut log, &Schemas::new()).unwrap();
    let records: Vec<Vec<u8>> = vec![vec![1], vec![], vec![2, 3], vec![4, 5, 6]];
    for r in &records {
        emit_bytes(&mut log, r.clone()).unwrap();
    }
    assert_eq!(log.length(), Some(4));
    for (i, r) in records.iter().enumerate() {
        assert_eq!(log.event_at(i as u32), Some(r));
    }
    assert_eq!(log.event_at(4), None);
    assert_eq!(read_event(&log, 4, "Mint"), Err(LogError::KeyAbsent));
}

#[test]
fn second_init_fails_and_keeps_state() {
    let mut log = EventLog::new();
    call(&mut log).unwrap();
    emit_bytes(&mut log, vec![7]).unwrap();
    let schema_before = log.schema_bytes().unwrap().clone();
    assert_eq!(init(&mut log, &Schemas::new()), Err(LogError::AlreadyInitialized));
    assert_eq!(call(&mut log), Err(LogError::AlreadyInitialized));
    assert_eq!(log.length(), Some(1));
    assert_eq!(log.schema_bytes().unwrap(), &schema_before);
    assert_eq!(log.version().unwrap(), "1.1");
}

#[test]
fn emit_before_init_fails() {
    let mut log = EventLog::new();
    assert_eq!(emit_bytes(&mut log, vec![1]), Err(LogError::NotInitialized));
    assert_eq!(log.length(), None);
}

#[test]
fn registry_bytes_do_not_depend_on_order() {
    let mut a = Schemas::new();
    a.add_schema("Transfer".to_string(), transfer_schema());
    a.add_schema("Mint".to_string(), mint_schema());
    let mut b = Schemas::new();
    b.add_schema("Mint".to_string(), mint_schema());
    b.add_schema("Transfer".to_string(), transfer_schema());
    assert_eq!(a.to_bytes().unwrap(), b.to_bytes().unwrap());
    assert_eq!(a.to_bytes().unwrap(), example_schemas().to_bytes().unwrap());
    let bytes = a.to_bytes().unwrap();
    assert_eq!(&bytes[..4], &[2, 0, 0, 0]);
    assert_eq!(&bytes[4..12], &[4, 0, 0, 0, b'M', b'i', b'n', b't']);
}

#[test]
fn registering_a_name_again_replaces_its_schema() {
    let mut a = Schemas::new();
    a.add_schema("Mint".to_string(), transfer_schema());
    a.add_schema("Mint".to_string(), mint_schema());
    let mut b = Schemas::new();
    b.add_schema("Mint".to_string(), mint_schema());
    assert_eq!(a.to_bytes().unwrap(), b.to_bytes().unwrap());
}

#[test]
fn empty_registry_encodes_to_zero_count() {
    assert_eq!(Schemas::new().to_bytes().unwrap(), vec![0, 0, 0, 0]);
}

#[test]
fn registry_round_trips_through_bytes() {
    let reg = Schemas::new().with::<Transfer>().with::<Mint>();
    let bytes = reg.to_bytes().unwrap();
    assert_eq!(reg.serialized_length(), bytes.len());
    let (decoded, rest) = Schemas::from_bytes(&bytes).unwrap();
    assert!(rest.is_empty());
    assert_eq!(decoded, reg);
    assert_eq!(decoded, example_schemas());
}

#[test]
fn duplicate_names_in_bytes_keep_the_last() {
    let mut one = Schemas::new();
    one.add_schema("Mint".to_string(), transfer_schema());
    let mut bytes = vec![2, 0, 0, 0];
    bytes.extend_from_slice(&one.to_bytes().unwrap()[4..]);
    let mut two = Schemas::new();
    two.add_schema("Mint".to_string(), mint_schema());
    bytes.extend_from_slice(&two.to_bytes().unwrap()[4..]);
    let (decoded, _) = Schemas::from_bytes(&bytes).unwrap();
    assert_eq!(decoded, two);
}

#[test]
fn init_decision() {
    assert_eq!(check_init(false, false, false), Ok(()));
    assert_eq!(check_init(true, false, false), Err(LogError::AlreadyInitialized));
    assert_eq!(check_init(false, true, false), Err(LogError::AlreadyInitialized));
    assert_eq!(check_init(false, false, true), Err(LogError::AlreadyInitialized));
}

#[test]
fn counter_steps_and_stops_at_max() {
    assert_eq!(next_length(0), Ok(1));
    assert_eq!(next_length(41), Ok(42));
    assert_eq!(next_length(u32::MAX), Err(LogError::LengthOverflow));
}

#[test]
fn reading_with_wrong_type_fails() {
    let mut log = EventLog::new();
    call(&mut log).unwrap();
    emit(&mut log, "Mint", &mint_fields(H5, 1)).unwrap();
    assert_eq!(
        read_event(&log, 0, "Transfer"),
        Err(LogError::Format(casper_event_standard::bytesrepr::Error::Formatting))
    );
}
