//! Checks of the schema plumbing: type mapping, signal filters, message
//! lookup, conversions, and concrete round trips.

use dbc_data::filter::SignalFilter;
use dbc_data::message::{find_message, MessageSchema, MessageValue};
use dbc_data::signal::{storage_width, ByteOrder, PublicType, SignalSchema, StorageType};

fn sig(name: &str, start: u64, width: u64, order: ByteOrder, signed: bool, scaled: bool) -> SignalSchema {
    SignalSchema::new(name.to_string(), start, width, order, signed, scaled)
}

#[test]
fn storage_widths() {
    assert_eq!(storage_width(1), 1);
    assert_eq!(storage_width(2), 8);
    assert_eq!(storage_width(8), 8);
    assert_eq!(storage_width(9), 16);
    assert_eq!(storage_width(13), 16);
    assert_eq!(storage_width(16), 16);
    assert_eq!(storage_width(17), 32);
    assert_eq!(storage_width(32), 32);
    assert_eq!(storage_width(33), 64);
    assert_eq!(storage_width(64), 64);
}

#[test]
fn type_mapping() {
    // a single bit maps to bool, regardless of sign
    let b = sig("B", 0, 1, ByteOrder::LittleEndian, false, false);
    assert_eq!(b.storage_type(), StorageType::Bool);
    assert_eq!(b.public_type(), PublicType::Bool);

    // a 13-bit signed signal is stored in the narrowest fitting integer
    let s13 = sig("S", 0, 13, ByteOrder::LittleEndian, true, false);
    assert_eq!(s13.storage_type(), StorageType::I16);
    assert_eq!(s13.public_type(), PublicType::I16);

    // a 17-bit unsigned signal needs 32 bits
    let u17 = sig("U", 0, 17, ByteOrder::LittleEndian, false, false);
    assert_eq!(u17.storage_type(), StorageType::U32);
    assert_eq!(u17.public_type(), PublicType::U32);

    // a scaled signal is exposed as a float, whatever its storage
    let f = sig("F", 0, 8, ByteOrder::LittleEndian, false, true);
    assert_eq!(f.storage_type(), StorageType::U8);
    assert_eq!(f.public_type(), PublicType::F32);
}

#[test]
fn filter_from_list() {
    let f = SignalFilter::new(Some("Bool_A, Bool_H, Float_A"));
    assert!(f.use_signal("Bool_A"));
    assert!(f.use_signal("Bool_H"));
    assert!(f.use_signal("Float_A"));
    assert!(!f.use_signal("Bool_B"));
    assert!(!f.use_signal("Bool"));
}

#[test]
fn filter_absent_admits_all() {
    let f = SignalFilter::new(None);
    assert!(f.use_signal("Anything"));
    assert!(f.use_signal(""));
}

#[test]
fn filter_trims_whitespace() {
    let f = SignalFilter::new(Some("  One ,\tTwo\n, Three"));
    assert!(f.use_signal("One"));
    assert!(f.use_signal("Two"));
    assert!(f.use_signal("Three"));
    assert!(!f.use_signal(" One"));
}

#[test]
fn message_lookup() {
    let schemas = vec![
        MessageSchema::new("First".to_string(), 1, false, 8, None),
        MessageSchema::new("Second".to_string(), 2, false, 4, Some(100)),
    ];
    assert_eq!(find_message(&schemas, "First"), Some(0));
    assert_eq!(find_message(&schemas, "Second"), Some(1));
    assert_eq!(find_message(&schemas, "Third"), None);
    assert_eq!(schemas[1].cycle_time, Some(100));
}

#[test]
fn try_from_pdu_lengths() {
    let mut schema = MessageSchema::new("M".to_string(), 5, false, 2, None);
    schema.push_signal(sig("V", 0, 16, ByteOrder::LittleEndian, false, false));

    // wrong length: a unit error
    let bad_schema = MessageSchema::new("M".to_string(), 5, false, 2, None);
    assert!(MessageValue::try_from_pdu(bad_schema, &[0x01]).is_err());

    // right length: the populated value object
    let v = MessageValue::try_from_pdu(schema, &[0x34, 0x12]).unwrap();
    assert_eq!(v.fields[0], 0x1234);
}

#[test]
fn round_trip_unaligned() {
    // encode then decode an unaligned little-endian signal: the value returns
    let mut schema = MessageSchema::new("M".to_string(), 9, false, 8, None);
    schema.push_signal(sig("S", 13, 17, ByteOrder::LittleEndian, true, false));
    let mut v = MessageValue::new(schema);
    v.fields[0] = (-0x0F0F1i64) as u64;
    let mut pdu: Vec<u8> = vec![0xA5u8; 8];
    assert!(v.encode(&mut pdu));
    assert!(v.decode(&pdu));
    assert_eq!(v.fields[0] as i64, -0x0F0F1);
}

#[test]
fn round_trip_bool() {
    let mut schema = MessageSchema::new("M".to_string(), 9, false, 1, None);
    schema.push_signal(sig("Flag", 5, 1, ByteOrder::LittleEndian, false, false));
    let mut v = MessageValue::new(schema);
    v.fields[0] = 1;
    let mut pdu: Vec<u8> = vec![0u8; 1];
    assert!(v.encode(&mut pdu));
    assert_eq!(pdu[0], 0x20);
    assert!(v.decode(&pdu));
    assert_eq!(v.fields[0], 1);
}

#[test]
fn encode_wrong_length_rejected() {
    let mut schema = MessageSchema::new("M".to_string(), 9, false, 4, None);
    schema.push_signal(sig("V", 0, 32, ByteOrder::LittleEndian, false, false));
    let v = MessageValue::new(schema);
    let mut pdu: Vec<u8> = vec![0xEEu8; 3];
    assert!(!v.encode(&mut pdu));
    assert_eq!(pdu, vec![0xEEu8; 3]);
}

#[test]
fn unaligned_big_endian_encode_is_skipped() {
    // no encoder exists for an unaligned big-endian signal: the payload is
    // left untouched, while decode still works
    let mut schema = MessageSchema::new("M".to_string(), 9, false, 8, None);
    schema.push_signal(sig("S", 11, 3, ByteOrder::BigEndian, false, false));
    let mut v = MessageValue::new(schema);
    assert!(v.decode(&[0xfd, 0xe5, 0xa1, 0xf0, 0x31, 0xf8, 0x70, 0x77]));
    assert_eq!(v.fields[0], 2);
    v.fields[0] = 7;
    let mut pdu: Vec<u8> = vec![0u8; 8];
    assert!(v.encode(&mut pdu));
    assert_eq!(pdu, vec![0u8; 8]);
}

#[test]
fn sign_extension_small_width() {
    // a 3-bit signed value with its top bit set decodes with all high bits one
    let mut schema = MessageSchema::new("M".to_string(), 9, false, 1, None);
    schema.push_signal(sig("S", 3, 3, ByteOrder::LittleEndian, true, false));
    let mut v = MessageValue::new(schema);
    assert!(v.decode(&[0b0010_1000]));
    assert_eq!(v.fields[0], 0xFFFF_FFFF_FFFF_FFFD);
    assert_eq!(v.fields[0] as i64, -3);
}

#[test]
fn round_trip_sixty_four_be() {
    let mut schema = MessageSchema::new("M".to_string(), 9, false, 8, None);
    schema.push_signal(sig("V", 7, 64, ByteOrder::BigEndian, false, false));
    let mut v = MessageValue::new(schema);
    v.fields[0] = 0x1122334455667788;
    let mut pdu: Vec<u8> = vec![0u8; 8];
    assert!(v.encode(&mut pdu));
    assert_eq!(pdu, vec![0x11, 0x22, 0x33, 0x44, 0x55, 0x66, 0x77, 0x88]);
    assert!(v.decode(&pdu));
    assert_eq!(v.fields[0], 0x1122334455667788);
}

#[test]
fn big_endian_small_signal_straddles_bytes() {
    // five bits starting at bit 2 of byte 2: the byte's low three bits are
    // the top of the value, the next byte's top two bits finish it
    let mut schema = MessageSchema::new("M".to_string(), 9, false, 4, None);
    schema.push_signal(sig("S", 18, 5, ByteOrder::BigEndian, false, false));
    let mut v = MessageValue::new(schema);
    assert!(v.decode(&[0x00, 0x00, 0b0000_0101, 0b1100_0000]));
    assert_eq!(v.fields[0], 0b10111);
}
