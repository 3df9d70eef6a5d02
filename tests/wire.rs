use valve_query::compress::{accept_decompressed, get_payload};
use valve_query::cursor::Reader;
use valve_query::packet::{reassemble, Packet, SplitPacket};
use valve_query::types::{Engine, QueryError, Request};

const PAYLOAD: [u8; 19] = [
    0xff, 0xff, 0xff, 0xff, 0x45, 0x01, 0x00, 0x73, 0x76, 0x5f, 0x63, 0x68, 0x65, 0x61, 0x74, 0x73, 0x00,
    0x30, 0x00,
];
const PAYLOAD_CRC: u32 = 0x40880b52;
const COMPRESSED: [u8; 62] = [
    0x42, 0x5a, 0x68, 0x39, 0x31, 0x41, 0x59, 0x26, 0x53, 0x59, 0x56, 0x8b, 0x3a, 0xee, 0x00, 0x00, 0x09,
    0xcf, 0x80, 0xe0, 0x00, 0x40, 0x00, 0x02, 0x00, 0x00, 0x00, 0xaa, 0x40, 0x0d, 0x00, 0x00, 0x00, 0xa0,
    0x00, 0x22, 0x98, 0x11, 0x8f, 0x50, 0x80, 0x68, 0x02, 0x86, 0x78, 0x8e, 0x17, 0xfc, 0xc2, 0x40, 0xeb,
    0x68, 0xbb, 0x92, 0x29, 0xc2, 0x84, 0x82, 0xb4, 0x59, 0xd7, 0x70,
];

#[test]
fn reader_reads_little_endian_integers() {
    let mut r = Reader::new(vec![0x01, 0x02, 0x03, 0x04, 0x05, 0x06, 0x07, 0x08, 0xff]);
    assert_eq!(r.read_u16(), Ok(0x0201));
    assert_eq!(r.read_u32(), Ok(0x06050403));
    assert_eq!(r.read_u16(), Ok(0x0807));
    assert_eq!(r.read_u8(), Ok(0xff));
    assert_eq!(r.read_u8(), Err(QueryError::PacketUnderflow));
    let mut r = Reader::new(vec![0x01, 0x02, 0x03, 0x04, 0x05, 0x06, 0x07, 0x08]);
    assert_eq!(r.read_u64(), Ok(0x0807060504030201));
    let mut r = Reader::new(vec![0xfe, 0xff, 0xff, 0xff]);
    assert_eq!(r.read_i32(), Ok(-2));
}

#[test]
fn reader_underflow_leaves_position() {
    let mut r = Reader::new(vec![0x01, 0x02, 0x03]);
    assert_eq!(r.read_u32(), Err(QueryError::PacketUnderflow));
    assert_eq!(r.pos, 0);
    assert_eq!(r.read_u64(), Err(QueryError::PacketUnderflow));
    assert_eq!(r.skip(4), Err(QueryError::PacketUnderflow));
    assert_eq!(r.remaining(), 3);
}

#[test]
fn reader_strings() {
    let mut r = Reader::new(vec![b'a', b'b', 0, 0, b'c']);
    assert_eq!(r.read_string(), Ok(String::from("ab")));
    assert_eq!(r.read_string(), Ok(String::new()));
    assert_eq!(r.read_string(), Err(QueryError::PacketUnderflow));
    assert_eq!(r.pos, 4);
    let mut bad = Reader::new(vec![0xc3, 0x28, 0]);
    assert_eq!(bad.read_string(), Err(QueryError::PacketBad));
    let mut utf = Reader::new(vec![0xc3, 0xa9, 0]);
    assert_eq!(utf.read_string(), Ok(String::from("\u{e9}")));
}

#[test]
fn packet_bytes_and_back() {
    let p = Packet::new(0x54, Request::Info.get_default_payload());
    let bytes = p.to_bytes();
    let mut expected = vec![0xff, 0xff, 0xff, 0xff, 0x54];
    expected.extend_from_slice(b"Source Engine Query\0");
    assert_eq!(bytes, expected);
    let back = Packet::from_bytes(bytes).unwrap();
    assert_eq!(back.kind, 0x54);
    assert_eq!(back.payload, b"Source Engine Query\0".to_vec());
    assert!(matches!(Packet::from_bytes(vec![0xff, 0xff, 0xff, 0xff]), Err(QueryError::PacketUnderflow)));
}

#[test]
fn default_payloads() {
    assert_eq!(Request::Players.get_default_payload(), vec![0xff, 0xff, 0xff, 0xff]);
    assert_eq!(Request::Rules.get_default_payload(), vec![0xff, 0xff, 0xff, 0xff]);
    assert_eq!(Request::Info.kind(), 0x54);
    assert_eq!(Request::Players.kind(), 0x55);
    assert_eq!(Request::Rules.kind(), 0x56);
}

#[test]
fn goldsrc_split_header_packs_nibbles() {
    let data = vec![0xfe, 0xff, 0xff, 0xff, 0x07, 0x00, 0x00, 0x00, 0x12, 0xaa, 0xbb];
    let p = SplitPacket::new(&Engine::GoldSrc(false), 0, data).unwrap();
    assert_eq!(p.id, 7);
    assert_eq!(p.total, 2);
    assert_eq!(p.number, 1);
    assert_eq!(p.size, 0);
    assert_eq!(p.decompressed, None);
    assert_eq!(p.payload, vec![0xaa, 0xbb]);
}

#[test]
fn source_split_header_with_size() {
    let data = vec![0xfe, 0xff, 0xff, 0xff, 0x07, 0x00, 0x00, 0x00, 0x03, 0x02, 0xe0, 0x04, 0x11];
    let p = SplitPacket::new(&Engine::Source(None), 17, data).unwrap();
    assert_eq!((p.total, p.number, p.size), (3, 2, 0x04e0));
    assert_eq!(p.payload, vec![0x11]);
}

#[test]
fn css_protocol_seven_has_no_size_field() {
    let data = vec![0xfe, 0xff, 0xff, 0xff, 0x07, 0x00, 0x00, 0x00, 0x02, 0x00, 0x11, 0x22];
    let p = SplitPacket::new(&Engine::new(240), 7, data.clone()).unwrap();
    assert_eq!(p.size, 1248);
    assert_eq!(p.payload, vec![0x11, 0x22]);
    let q = SplitPacket::new(&Engine::new(240), 17, data).unwrap();
    assert_eq!(q.size, 0x2211);
    assert!(q.payload.is_empty());
}

#[test]
fn compressed_split_header_declares_size_and_crc() {
    let data = vec![
        0xfe, 0xff, 0xff, 0xff, 0x01, 0x00, 0x00, 0x80, 0x01, 0x00, 0xe0, 0x04, 0x13, 0x00, 0x00, 0x00,
        0x52, 0x0b, 0x88, 0x40, 0x42,
    ];
    let p = SplitPacket::new(&Engine::Source(None), 17, data).unwrap();
    assert_eq!(p.decompressed, Some((19, PAYLOAD_CRC)));
    assert_eq!(p.payload, vec![0x42]);
}

#[test]
fn split_index_beyond_total_is_rejected() {
    let data = vec![0xfe, 0xff, 0xff, 0xff, 0x07, 0x00, 0x00, 0x00, 0x02, 0x02, 0xe0, 0x04];
    assert!(matches!(SplitPacket::new(&Engine::Source(None), 17, data), Err(QueryError::PacketBad)));
    let short = vec![0xfe, 0xff, 0xff, 0xff, 0x07, 0x00, 0x00, 0x00, 0x02, 0x00, 0xe0];
    assert!(matches!(SplitPacket::new(&Engine::Source(None), 17, short), Err(QueryError::PacketUnderflow)));
}

fn fragment(number: u8, payload: &[u8]) -> SplitPacket {
    SplitPacket { id: 1, total: 3, number, size: 0, decompressed: None, payload: payload.to_vec() }
}

#[test]
fn reassembly_ignores_arrival_order() {
    let orders: [[u8; 3]; 6] = [[0, 1, 2], [0, 2, 1], [1, 0, 2], [1, 2, 0], [2, 0, 1], [2, 1, 0]];
    let parts: [&[u8]; 3] = [b"ab", b"cde", b"f"];
    for order in orders.iter() {
        let frags: Vec<SplitPacket> = order.iter().map(|&i| fragment(i, parts[i as usize])).collect();
        assert_eq!(reassemble(&frags), b"abcdef".to_vec());
    }
}

#[test]
fn decompression_round_trip() {
    let out = get_payload(&COMPRESSED.to_vec(), Some((19, PAYLOAD_CRC))).unwrap();
    assert_eq!(out, PAYLOAD.to_vec());
}

#[test]
fn decompression_rejects_corruption() {
    for i in 0..COMPRESSED.len() {
        let mut bad = COMPRESSED.to_vec();
        bad[i] ^= 0x5a;
        let r = get_payload(&bad, Some((19, PAYLOAD_CRC)));
        assert!(r == Err(QueryError::Decompress) || r == Ok(PAYLOAD.to_vec()), "byte {}", i);
    }
    let mut bad = COMPRESSED.to_vec();
    bad[30] ^= 0x5a;
    assert_eq!(get_payload(&bad, Some((19, PAYLOAD_CRC))), Err(QueryError::Decompress));
}

#[test]
fn decompression_checks_declared_size_and_crc() {
    assert_eq!(get_payload(&COMPRESSED.to_vec(), Some((18, PAYLOAD_CRC))), Err(QueryError::Decompress));
    assert_eq!(get_payload(&COMPRESSED.to_vec(), Some((19, PAYLOAD_CRC ^ 1))), Err(QueryError::Decompress));
    assert_eq!(get_payload(&vec![], Some((0, 0))), Err(QueryError::Decompress));
    assert_eq!(get_payload(&vec![1, 2, 3], None), Ok(vec![1, 2, 3]));
    assert_eq!(accept_decompressed(vec![1], 5, 1, 5), Ok(vec![1]));
    assert_eq!(accept_decompressed(vec![1], 5, 2, 5), Err(QueryError::Decompress));
}
