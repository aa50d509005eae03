//! End-to-end decode and encode checks over the schemas of the test DBC.

use dbc_data::message::{MessageSchema, MessageValue};
use dbc_data::signal::{ByteOrder, SignalSchema};

fn sig(name: &str, start: u64, width: u64, order: ByteOrder, signed: bool, scaled: bool) -> SignalSchema {
    SignalSchema::new(name.to_string(), start, width, order, signed, scaled)
}

fn message(name: &str, id: u32, dlc: u64, signals: Vec<SignalSchema>) -> MessageValue {
    let mut schema = MessageSchema::new(name.to_string(), id, false, dlc, None);
    for s in signals {
        schema.push_signal(s);
    }
    MessageValue::new(schema)
}

fn aligned_le() -> MessageValue {
    message(
        "AlignedLE",
        1023,
        8,
        vec![
            sig("Signed8", 0, 8, ByteOrder::LittleEndian, true, false),
            sig("Unsigned8", 8, 8, ByteOrder::LittleEndian, false, false),
            sig("Unsigned16", 16, 16, ByteOrder::LittleEndian, false, false),
            sig("Unsigned32", 32, 32, ByteOrder::LittleEndian, false, false),
        ],
    )
}

fn aligned_be() -> MessageValue {
    message(
        "AlignedBE",
        1024,
        8,
        vec![
            sig("Signed8", 7, 8, ByteOrder::BigEndian, true, false),
            sig("Unsigned8", 15, 8, ByteOrder::BigEndian, false, false),
            sig("Unsigned16", 23, 16, ByteOrder::BigEndian, false, false),
            sig("Unsigned32", 39, 32, ByteOrder::BigEndian, false, false),
        ],
    )
}

fn unaligned_ule() -> MessageValue {
    message(
        "UnalignedUnsignedLE",
        1025,
        8,
        vec![
            sig("Unsigned15", 43, 15, ByteOrder::LittleEndian, false, false),
            sig("Unsigned23", 18, 23, ByteOrder::LittleEndian, false, false),
            sig("Unsigned3", 11, 3, ByteOrder::LittleEndian, false, false),
        ],
    )
}

fn unaligned_ube() -> MessageValue {
    message(
        "UnalignedUnsignedBE",
        1026,
        8,
        vec![
            sig("Unsigned3", 11, 3, ByteOrder::BigEndian, false, false),
            sig("Unsigned15", 43, 15, ByteOrder::BigEndian, false, false),
            sig("Unsigned23", 18, 23, ByteOrder::BigEndian, false, false),
        ],
    )
}

fn unaligned_sle() -> MessageValue {
    message(
        "UnalignedSignedLE",
        1027,
        8,
        vec![
            sig("Signed15", 43, 15, ByteOrder::LittleEndian, true, false),
            sig("Signed23", 18, 23, ByteOrder::LittleEndian, true, false),
            sig("Signed3", 11, 3, ByteOrder::LittleEndian, true, false),
        ],
    )
}

fn unaligned_sbe() -> MessageValue {
    message(
        "UnalignedSignedBE",
        1028,
        8,
        vec![
            sig("Signed3", 11, 3, ByteOrder::BigEndian, true, false),
            sig("Signed15", 43, 15, ByteOrder::BigEndian, true, false),
            sig("Signed23", 18, 23, ByteOrder::BigEndian, true, false),
        ],
    )
}

/// `MiscMessage`, restricted by its signal list to `Bool_A, Bool_H, Float_A`;
/// `Float_A` has factor 0.5 and offset 0.25.
fn misc_message() -> MessageValue {
    message(
        "MiscMessage",
        8191,
        2,
        vec![
            sig("Bool_A", 0, 1, ByteOrder::LittleEndian, false, false),
            sig("Bool_H", 7, 1, ByteOrder::LittleEndian, false, false),
            sig("Float_A", 8, 8, ByteOrder::LittleEndian, false, true),
        ],
    )
}

fn sixty_four(name: &str, id: u32, order: ByteOrder, signed: bool) -> MessageValue {
    let start = match order {
        ByteOrder::LittleEndian => 0,
        ByteOrder::BigEndian => 7,
    };
    message(name, id, 8, vec![sig("SixtyFour", start, 64, order, signed, false)])
}

fn group_data1() -> MessageValue {
    message(
        "GroupData1",
        1030,
        8,
        vec![sig("ValueA", 0, 32, ByteOrder::LittleEndian, false, false)],
    )
}

#[test]
fn basic() {
    let mut t = aligned_le();

    // invalid length
    assert!(!t.decode(&[0x00]));

    // message ID, DLC constants
    assert_eq!(t.schema.id, 1023);
    assert_eq!(t.schema.dlc, 8);
    let m = misc_message();
    assert_eq!(m.schema.id, 8191);
    assert_eq!(m.schema.dlc, 2);
}

#[test]
fn aligned_unsigned_le() {
    let mut t = aligned_le();

    assert!(t.decode(&[0xfe, 0x55, 0x01, 0x20, 0x34, 0x56, 0x78, 0x9A]));
    assert_eq!(t.fields[0] as i64, -2);
    assert_eq!(t.fields[1], 0x55);
    assert_eq!(t.fields[2], 0x2001);
    assert_eq!(t.fields[3], 0x9A785634);

    let mut pdu: Vec<u8> = vec![0u8; 8];
    t.fields[0] = (-99i64) as u64;
    t.fields[1] = 0x33;
    t.fields[2] = 0x78bc;
    assert!(t.encode(&mut pdu));
    assert_eq!(pdu[0], 0x9d);
    assert_eq!(pdu[1], 0x33);
    assert_eq!(pdu[2], 0xbc);
    assert_eq!(pdu[3], 0x78);
}

#[test]
fn aligned_unsigned_be() {
    let mut t = aligned_be();

    assert!(t.decode(&[0xAA, 0x55, 0x01, 0x20, 0x34, 0x56, 0x78, 0x9A]));
    assert_eq!(t.fields[0] as i64, -86);
    assert_eq!(t.fields[1], 0x55);
    assert_eq!(t.fields[2], 0x0120);
    assert_eq!(t.fields[3], 0x3456789A);

    let mut pdu: Vec<u8> = vec![0u8; 8];
    t.fields[0] = 12i64 as u64;
    t.fields[1] = 0x77;
    t.fields[2] = 0x78bc;
    t.fields[3] = 0x1234FEDC;
    assert!(t.encode(&mut pdu));
    assert_eq!(pdu[0], 0x0C);
    assert_eq!(pdu[1], 0x77);
    assert_eq!(pdu[2], 0x78);
    assert_eq!(pdu[3], 0xbc);
    assert_eq!(pdu[4], 0x12);
    assert_eq!(pdu[5], 0x34);
    assert_eq!(pdu[6], 0xFE);
    assert_eq!(pdu[7], 0xDC);
}

#[test]
fn unaligned_unsigned_le() {
    let mut t = unaligned_ule();

    // various unaligned values
    assert!(t.decode(&[0xF7, 0x70, 0x20, 0x31, 0xf0, 0xa1, 0x73, 0xfd]));
    assert_eq!(t.fields[0], 0x2E74);
    assert_eq!(t.fields[1], 0x7C0C48);
    assert_eq!(t.fields[2], 6);

    let mut pdu: Vec<u8> = vec![0xffu8; 8];
    t.fields[0] = 0x5af5;
    t.fields[1] = 0x3C0C49;
    t.fields[2] = 0x2;
    assert!(t.encode(&mut pdu));
    assert_eq!(pdu, vec![0xffu8, 0xd7, 0x27, 0x31, 0xf0, 0xae, 0xd7, 0xfe]);
}

#[test]
fn unaligned_unsigned_be() {
    let mut t = unaligned_ube();

    // various unaligned values
    assert!(t.decode(&[0xfd, 0xe5, 0xa1, 0xf0, 0x31, 0xf8, 0x70, 0x77]));
    assert_eq!(t.fields[0], 2);
    assert_eq!(t.fields[1], 0x4383);
    assert_eq!(t.fields[2], 0x1F031F);
}

#[test]
fn unaligned_signed_le() {
    let mut t = unaligned_sle();

    // various unaligned values
    assert!(t.decode(&[0xF7, 0x70, 0x20, 0x31, 0xf0, 0xa1, 0x73, 0xfd]));
    assert_eq!(t.fields[0] as i16, 0x2E74);
    assert_eq!(t.fields[1] as i32, 0xFFFC0C48u32 as i32);
    assert_eq!(t.fields[2] as i64, -2);
}

#[test]
fn unaligned_signed_be() {
    let mut t = unaligned_sbe();

    // various unaligned values
    assert!(t.decode(&[0xfd, 0xe5, 0xa1, 0xf0, 0x31, 0xf8, 0x70, 0x77]));
    assert_eq!(t.fields[0] as i64, 2);
    assert_eq!(t.fields[1] as i16, 0xC383u16 as i16);
    assert_eq!(t.fields[2] as i32, 0x1F031F);
}

#[test]
fn misc() {
    let mut t = misc_message();

    // booleans, and a scaled signal read through its factor and offset
    assert!(t.decode(&[0x82, 0x20]));
    assert_eq!(t.fields[0], 0);
    assert_eq!(t.fields[1], 1);
    let float_a = (t.fields[2] as f32) * 0.5 + 0.25;
    assert_eq!(float_a, 16.25);

    let mut pdu: Vec<u8> = vec![0u8; 2];
    t.fields[0] = 1;
    let new_float_a: f32 = 20.75;
    t.fields[2] = ((new_float_a - 0.25) / 0.5) as u8 as u64;
    assert!(t.encode(&mut pdu));
    assert_eq!(pdu[0], 0x81);
    assert_eq!(pdu[1], 0x29);
}

#[test]
fn sixty_four_bit() {
    // 64-bit unsigned little-endian
    let mut le = sixty_four("SixtyFourBitLE", 1031, ByteOrder::LittleEndian, false);
    assert!(le.decode(&[0x11, 0x22, 0x33, 0x44, 0x55, 0x66, 0x77, 0x88]));
    assert_eq!(le.fields[0], 0x8877665544332211);

    // 64-bit unsigned big-endian
    let mut be = sixty_four("SixtyFourBitBE", 1032, ByteOrder::BigEndian, false);
    assert!(be.decode(&[0x11, 0x22, 0x33, 0x44, 0x55, 0x66, 0x77, 0x88]));
    assert_eq!(be.fields[0], 0x1122334455667788);

    // 64-bit signed little-endian
    let mut signed = sixty_four("SixtyFourBitSigned", 1033, ByteOrder::LittleEndian, true);
    assert!(signed.decode(&[0x11, 0x22, 0x33, 0x44, 0x55, 0x66, 0x77, 0x88]));
    assert_eq!(signed.fields[0] as i64, -8613303245920329199);
}

#[test]
fn extract() {
    let data: [u8; 1] = [0x87u8];
    let value = i8::from_le_bytes(data);
    assert_eq!(value, -121);
}

#[test]
fn grouped() {
    // a family of identically shaped messages sharing one layout
    let mut grouped = vec![group_data1(), group_data1(), group_data1()];
    assert!(grouped[0].decode(&[0xAA, 0x55, 0x01, 0x20, 0x34, 0x56, 0x78, 0x9A]));
    assert!(grouped[0].fields[0] == 0x200155AA);
}
