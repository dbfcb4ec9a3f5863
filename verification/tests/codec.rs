use conftree::decode::{
    decode_file, decode_folder, decode_isize, decode_type, decode_usize, DecodeError,
};
use conftree::encode::{encode_configuration, encode_isize, encode_usize, EncodeError};
use conftree::{ConfigurationItem, ConfigurationNode};

fn header() -> Vec<u8> {
    vec![
        0x7F, 0x43, 0x54, 0x00, 0, 0, 0, 0, 0, 0, 0, 0, 0, 0, 0, 0, 0,
    ]
}

fn node(entries: Vec<(&[u8], ConfigurationItem)>) -> ConfigurationNode {
    ConfigurationNode {
        entries: entries.into_iter().map(|(n, i)| (n.to_vec(), i)).collect(),
    }
}

#[test]
fn varint_round_trip_unsigned() {
    for v in [0usize, 1, 127, 128, 129, 300, 16383, 16384, 1 << 20, usize::MAX - 1, usize::MAX] {
        let mut buf: Vec<u8> = Vec::new();
        encode_usize(&mut buf, v);
        let (back, pos) = decode_usize(&buf, 0).unwrap();
        assert_eq!(back, v);
        assert_eq!(pos, buf.len());
    }
}

#[test]
fn varint_round_trip_signed() {
    for v in [0isize, 1, -1, 2, -2, 63, -64, 64, -65, 1000, -1000, isize::MAX, isize::MIN] {
        let mut buf: Vec<u8> = Vec::new();
        encode_isize(&mut buf, v);
        let (back, pos) = decode_isize(&buf, 0).unwrap();
        assert_eq!(back, v);
        assert_eq!(pos, buf.len());
    }
}

#[test]
fn varint_exact_bytes() {
    let mut buf: Vec<u8> = Vec::new();
    encode_usize(&mut buf, 0);
    assert_eq!(buf, vec![0x00]);
    let mut buf: Vec<u8> = Vec::new();
    encode_usize(&mut buf, 127);
    assert_eq!(buf, vec![0x7F]);
    let mut buf: Vec<u8> = Vec::new();
    encode_usize(&mut buf, 128);
    assert_eq!(buf, vec![0x80, 0x01]);
    let mut buf: Vec<u8> = Vec::new();
    encode_usize(&mut buf, 300);
    assert_eq!(buf, vec![0xAC, 0x02]);
}

#[test]
fn zigzag_mapping() {
    // encode_int(-1) gives the same bytes as encode_uint(1)
    let mut a: Vec<u8> = Vec::new();
    encode_isize(&mut a, -1);
    let mut b: Vec<u8> = Vec::new();
    encode_usize(&mut b, 1);
    assert_eq!(a, b);
    // encode_int(0) gives the same bytes as encode_uint(0)
    let mut a: Vec<u8> = Vec::new();
    encode_isize(&mut a, 0);
    let mut b: Vec<u8> = Vec::new();
    encode_usize(&mut b, 0);
    assert_eq!(a, b);
}

#[test]
fn terminator_empty_node() {
    // a node body of a single zero byte is an empty node
    let body: Vec<u8> = vec![0x00];
    let (n, pos) = decode_folder(&body, 0).unwrap();
    assert_eq!(n.entries.len(), 0);
    assert_eq!(pos, 1);
}

#[test]
fn concrete_vector() {
    // {"A": Bool(true)} encodes to 81 41 02 00 after the header
    let tree = node(vec![(b"A", ConfigurationItem::Bool(true))]);
    let bytes = encode_configuration(&tree).unwrap();
    let mut expected = header();
    expected.extend_from_slice(&[0x81, 0x41, 0x02, 0x00]);
    assert_eq!(bytes, expected);
    let back = decode_file(&bytes).unwrap();
    assert_eq!(back, tree);
}

#[test]
fn invalid_tag_fails() {
    // a type byte of 0x0A is invalid content, not a silent placeholder
    let buf: Vec<u8> = vec![0x0A];
    assert_eq!(decode_type(&buf, 0).unwrap_err(), DecodeError::InvalidEncodingError);
    let mut bytes = header();
    bytes.extend_from_slice(&[0x81, 0x41, 0x0A, 0x00]);
    assert_eq!(decode_file(&bytes).unwrap_err(), DecodeError::InvalidEncodingError);
}

#[test]
fn name_length_bound() {
    // a 128-byte key name must fail, not be truncated
    let long = vec![0x41u8; 128];
    let tree = node(vec![(&long[..], ConfigurationItem::Bool(true))]);
    assert_eq!(encode_configuration(&tree).unwrap_err(), EncodeError::NameTooLong);
    // 127 bytes is still fine
    let edge = vec![0x41u8; 127];
    let tree = node(vec![(&edge[..], ConfigurationItem::Bool(true))]);
    let bytes = encode_configuration(&tree).unwrap();
    assert_eq!(decode_file(&bytes).unwrap(), tree);
}

#[test]
fn empty_name_fails() {
    let tree = node(vec![(b"", ConfigurationItem::Bool(true))]);
    assert_eq!(encode_configuration(&tree).unwrap_err(), EncodeError::EmptyName);
}

#[test]
fn full_round_trip() {
    let sub = node(vec![
        (b"flag", ConfigurationItem::Bool(false)),
        (b"color", ConfigurationItem::Color(1, 2, 3)),
    ]);
    let tree = node(vec![
        (b"b", ConfigurationItem::Bool(true)),
        (b"byte", ConfigurationItem::Byte(0xFE)),
        (b"u", ConfigurationItem::Usize(123456789)),
        (b"i", ConfigurationItem::Isize(-123456789)),
        (b"f32", ConfigurationItem::F32(1.5f32.to_bits())),
        (b"f64", ConfigurationItem::F64((-2.25f64).to_bits())),
        (b"bytes", ConfigurationItem::ByteArray(vec![0, 1, 2, 0xFF])),
        (
            b"arr",
            ConfigurationItem::Array(vec![
                ConfigurationItem::Usize(7),
                ConfigurationItem::Bool(true),
                ConfigurationItem::Text(b"x".to_vec()),
            ]),
        ),
        (b"text", ConfigurationItem::Text(b"hello world".to_vec())),
        (b"path", ConfigurationItem::PathText(b"/etc/motd".to_vec())),
        (b"sub", ConfigurationItem::Node(sub)),
    ]);
    let bytes = encode_configuration(&tree).unwrap();
    let back = decode_file(&bytes).unwrap();
    assert_eq!(back, tree);
}

#[test]
fn unsupported_variants_fail_encode() {
    let tree = node(vec![(b"t", ConfigurationItem::Timestamp)]);
    assert_eq!(encode_configuration(&tree).unwrap_err(), EncodeError::NotImplemented);
    let tree = node(vec![(b"a", ConfigurationItem::Absent)]);
    assert_eq!(encode_configuration(&tree).unwrap_err(), EncodeError::NotImplemented);
    // an array nested in an array has no defined encoding
    let tree = node(vec![(
        b"aa",
        ConfigurationItem::Array(vec![ConfigurationItem::Array(vec![])]),
    )]);
    assert_eq!(encode_configuration(&tree).unwrap_err(), EncodeError::NotImplemented);
}

#[test]
fn timestamp_tag_fails_decode() {
    let mut bytes = header();
    bytes.extend_from_slice(&[0x81, 0x41, 0x08, 0x00]);
    assert_eq!(decode_file(&bytes).unwrap_err(), DecodeError::NotImplemented);
}

#[test]
fn bad_magic_fails() {
    let mut bytes = header();
    bytes[0] = 0x7E;
    bytes.push(0x00);
    assert_eq!(decode_file(&bytes).unwrap_err(), DecodeError::InvalidFileError);
}

#[test]
fn truncated_header_fails() {
    let bytes: Vec<u8> = vec![0x7F, 0x43];
    assert_eq!(decode_file(&bytes).unwrap_err(), DecodeError::ReadError);
    let bytes: Vec<u8> = vec![0x7F, 0x43, 0x54, 0x00, 0, 0];
    assert_eq!(decode_file(&bytes).unwrap_err(), DecodeError::ReadError);
}

#[test]
fn truncated_value_fails() {
    // leaf record announcing a byte value with no payload
    let mut bytes = header();
    bytes.extend_from_slice(&[0x81, 0x41, 0x03]);
    assert_eq!(decode_file(&bytes).unwrap_err(), DecodeError::ReadError);
}

#[test]
fn invalid_key_text_fails() {
    // a lone 0xFF is not well-formed text
    let mut bytes = header();
    bytes.extend_from_slice(&[0x81, 0xFF, 0x02, 0x00]);
    assert_eq!(decode_file(&bytes).unwrap_err(), DecodeError::InvalidEncodingError);
}

#[test]
fn end_of_stream_closes_node() {
    // the body may end without an explicit terminator
    let mut bytes = header();
    bytes.extend_from_slice(&[0x81, 0x41, 0x02]);
    let tree = decode_file(&bytes).unwrap();
    assert_eq!(tree, node(vec![(b"A", ConfigurationItem::Bool(true))]));
}

#[test]
fn insert_overwrites_and_get_finds() {
    let mut n = ConfigurationNode::new();
    n.insert(b"k".to_vec(), ConfigurationItem::Bool(false));
    n.insert(b"k".to_vec(), ConfigurationItem::Bool(true));
    assert_eq!(n.entries.len(), 1);
    assert_eq!(n.get(&b"k".to_vec()), Some(&ConfigurationItem::Bool(true)));
    assert_eq!(n.get(&b"missing".to_vec()), None);
}
