use casper_event_standard::bytesrepr::Error;
use casper_event_standard::cl_type::{validate_type, CLType, CLType2};

fn b(t: CLType) -> Box<CLType> {
    Box::new(t)
}

fn round_trip(t: CLType) {
    let bytes = CLType2(t.clone()).to_bytes().unwrap();
    assert_eq!(CLType2(t.clone()).serialized_length(), bytes.len());
    let mut buf = bytes.clone();
    buf.extend_from_slice(&[9, 9]);
    let (d, rest) = CLType2::from_bytes(&buf).unwrap();
    assert_eq!(d.0, t);
    assert_eq!(rest, &[9, 9]);
}

#[test]
fn primitive_tags() {
    assert_eq!(CLType2(CLType::Bool).to_bytes().unwrap(), vec![0]);
    assert_eq!(CLType2(CLType::U256).to_bytes().unwrap(), vec![7]);
    assert_eq!(CLType2(CLType::Key).to_bytes().unwrap(), vec![11]);
    assert_eq!(CLType2(CLType::Any).to_bytes().unwrap(), vec![21]);
    assert_eq!(CLType2(CLType::PublicKey).to_bytes().unwrap(), vec![22]);
}

#[test]
fn composite_encodings() {
    assert_eq!(
        CLType2(CLType::ByteArray(32)).to_bytes().unwrap(),
        vec![15, 32, 0, 0, 0]
    );
    assert_eq!(
        CLType2(CLType::Result { ok: b(CLType::U8), err: b(CLType::String) })
            .to_bytes()
            .unwrap(),
        vec![16, 3, 10]
    );
    assert_eq!(
        CLType2(CLType::Mapping { key: b(CLType::String), value: b(CLType::List(b(CLType::U64))) })
            .to_bytes()
            .unwrap(),
        vec![17, 10, 14, 5]
    );
    assert_eq!(
        CLType2(CLType::Tuple3(b(CLType::Bool), b(CLType::I32), b(CLType::Option(b(CLType::Unit)))))
            .to_bytes()
            .unwrap(),
        vec![20, 0, 1, 13, 9]
    );
}

#[test]
fn descriptors_round_trip() {
    round_trip(CLType::Bool);
    round_trip(CLType::ByteArray(0x01020304));
    round_trip(CLType::Option(b(CLType::List(b(CLType::U512)))));
    round_trip(CLType::Result { ok: b(CLType::Unit), err: b(CLType::Any) });
    round_trip(CLType::Mapping { key: b(CLType::Key), value: b(CLType::URef) });
    round_trip(CLType::Tuple1(b(CLType::I64)));
    round_trip(CLType::Tuple2(b(CLType::U128), b(CLType::PublicKey)));
    round_trip(CLType::Tuple3(
        b(CLType::String),
        b(CLType::Tuple2(b(CLType::U8), b(CLType::U32))),
        b(CLType::ByteArray(7)),
    ));
}

#[test]
fn unknown_tag_is_formatting_error() {
    assert_eq!(CLType2::from_bytes(&[23]).unwrap_err(), Error::Formatting);
    assert_eq!(CLType2::from_bytes(&[13, 200]).unwrap_err(), Error::Formatting);
}

#[test]
fn truncated_descriptor_fails() {
    assert_eq!(CLType2::from_bytes(&[]).unwrap_err(), Error::EarlyEndOfStream);
    assert_eq!(CLType2::from_bytes(&[16, 3]).unwrap_err(), Error::EarlyEndOfStream);
    assert_eq!(CLType2::from_bytes(&[15, 1, 0]).unwrap_err(), Error::EarlyEndOfStream);
}

#[test]
fn any_is_rejected_anywhere() {
    assert_eq!(validate_type(&CLType::Any), Err(Error::Formatting));
    assert_eq!(validate_type(&CLType::List(b(CLType::Any))), Err(Error::Formatting));
    assert_eq!(
        validate_type(&CLType::Mapping { key: b(CLType::String), value: b(CLType::Any) }),
        Err(Error::Formatting)
    );
    assert_eq!(
        validate_type(&CLType::Tuple3(b(CLType::U8), b(CLType::U8), b(CLType::Option(b(CLType::Any))))),
        Err(Error::Formatting)
    );
    assert_eq!(
        validate_type(&CLType::Result { ok: b(CLType::Any), err: b(CLType::U8) }),
        Err(Error::Formatting)
    );
}

#[test]
fn concrete_types_are_accepted() {
    assert_eq!(validate_type(&CLType::U256), Ok(()));
    assert_eq!(
        validate_type(&CLType::Tuple2(b(CLType::Key), b(CLType::List(b(CLType::ByteArray(4)))))),
        Ok(())
    );
}

#[test]
fn descriptor_of_descriptor_is_any() {
    assert_eq!(CLType2::cl_type(), CLType::Any);
}
