use std::collections::VecDeque;
use valve_query::client::{
    assemble_fragments, challenge_payload, challenge_reply, check_app_id, get_response, should_retry, ValveProtocol,
};
use valve_query::link::Transport;
use valve_query::packet::{Packet, SplitPacket};
use valve_query::types::{Engine, GatheringSettings, QueryError, Request, Server, Environment};

/// Replays canned datagrams and records what was sent; times out once empty.
struct Scripted {
    replies: VecDeque<Vec<u8>>,
    sent: Vec<Vec<u8>>,
    receives: usize,
}

impl Scripted {
    fn new(replies: Vec<Vec<u8>>) -> Self {
        Scripted { replies: replies.into_iter().collect(), sent: Vec::new(), receives: 0 }
    }
}

impl Transport for Scripted {
    fn send(&mut self, data: &Vec<u8>) -> Result<(), QueryError> {
        self.sent.push(data.clone());
        Ok(())
    }

    fn receive(&mut self, _max_size: usize) -> Result<Vec<u8>, QueryError> {
        self.receives += 1;
        self.replies.pop_front().ok_or(QueryError::Timeout)
    }
}

/// Always answers with a challenge, until its fake clock runs out.
struct Challenger {
    ticks_left: usize,
    sends: usize,
}

impl Transport for Challenger {
    fn send(&mut self, _data: &Vec<u8>) -> Result<(), QueryError> {
        self.sends += 1;
        Ok(())
    }

    fn receive(&mut self, _max_size: usize) -> Result<Vec<u8>, QueryError> {
        if self.ticks_left == 0 {
            return Err(QueryError::Timeout);
        }
        self.ticks_left -= 1;
        Ok(vec![0xff, 0xff, 0xff, 0xff, 0x41, 1, 2, 3, 4])
    }
}

fn single(kind: u8, body: &[u8]) -> Vec<u8> {
    let mut v = vec![0xff, 0xff, 0xff, 0xff, kind];
    v.extend_from_slice(body);
    v
}

fn request(kind: u8, body: &[u8]) -> Vec<u8> {
    single(kind, body)
}

fn source_info(appid: u16) -> Vec<u8> {
    let mut v = vec![0x11];
    v.extend_from_slice(b"name\0map\0folder\0game\0");
    v.extend_from_slice(&appid.to_le_bytes());
    v.extend_from_slice(&[5, 10, 1, b'd', b'l', 0, 1]);
    v.extend_from_slice(b"1.0\0");
    v
}

#[test]
fn challenge_answered_with_minimal_round_trips() {
    for n in 0..4usize {
        let mut replies = Vec::new();
        for i in 0..n {
            replies.push(single(0x41, &[i as u8, 0xaa, 0xbb, 0xcc]));
        }
        replies.push(single(0x44, &[0x00]));
        let mut client = ValveProtocol::new(Scripted::new(replies), 0);
        let data = client.get_request_data(&Engine::Source(None), 0, 0x55, vec![0xff, 0xff, 0xff, 0xff]);
        assert_eq!(data, Ok(vec![0x00]));
        assert_eq!(client.link.transport().sent.len(), n + 1);
        assert_eq!(client.link.transport().receives, n + 1);
        assert_eq!(client.link.transport().sent[0], request(0x55, &[0xff, 0xff, 0xff, 0xff]));
        for i in 0..n {
            assert_eq!(client.link.transport().sent[i + 1], request(0x55, &[i as u8, 0xaa, 0xbb, 0xcc]));
        }
    }
}

#[test]
fn info_challenge_repeats_the_probe() {
    let replies = vec![single(0x41, &[9, 8, 7, 6]), single(0x49, &source_info(240))];
    let mut client = ValveProtocol::new(Scripted::new(replies), 0);
    let data = client.get_kind_request_data(&Engine::Source(None), 0, Request::Info).unwrap();
    assert_eq!(data, source_info(240));
    let mut probe = b"Source Engine Query\0".to_vec();
    probe.extend_from_slice(&[9, 8, 7, 6]);
    assert_eq!(client.link.transport().sent[1], request(0x54, &probe));
    assert_eq!(challenge_payload(0x55, vec![1, 2]), vec![1, 2]);
}

#[test]
fn endless_challenges_end_in_timeout_after_retries() {
    let mut client = ValveProtocol::new(Challenger { ticks_left: 50, sends: 0 }, 2);
    let r = client.get_request_data(&Engine::Source(None), 0, 0x56, vec![0xff, 0xff, 0xff, 0xff]);
    assert_eq!(r, Err(QueryError::Timeout));
    // 50 challenges answered, then three attempts that each send once and time out.
    assert_eq!(client.link.transport().sends, 50 + 3);
}

#[test]
fn timeouts_are_retried_then_final() {
    let mut client = ValveProtocol::new(Scripted::new(vec![]), 3);
    let r = client.get_request_data(&Engine::Source(None), 0, 0x55, vec![]);
    assert_eq!(r, Err(QueryError::Timeout));
    assert_eq!(client.link.transport().sent.len(), 4);
    assert!(should_retry(QueryError::Timeout, 1));
    assert!(!should_retry(QueryError::Timeout, 0));
    assert!(!should_retry(QueryError::PacketBad, 5));
}

#[test]
fn decode_errors_are_not_retried() {
    let mut client = ValveProtocol::new(Scripted::new(vec![vec![0xff, 0xff]]), 3);
    let r = client.get_request_data(&Engine::Source(None), 0, 0x55, vec![]);
    assert_eq!(r, Err(QueryError::PacketUnderflow));
    assert_eq!(client.link.transport().sent.len(), 1);
}

#[test]
fn split_response_reassembled_out_of_order() {
    let body = single(0x44, &[0x01, 0x00, b'x', 0x00, b'y', 0x00]);
    let (a, b) = body.split_at(5);
    let mut f1 = vec![0xfe, 0xff, 0xff, 0xff, 0x07, 0x00, 0x00, 0x00, 0x02, 0x01, 0xe0, 0x04];
    f1.extend_from_slice(b);
    let mut f0 = vec![0xfe, 0xff, 0xff, 0xff, 0x07, 0x00, 0x00, 0x00, 0x02, 0x00, 0xe0, 0x04];
    f0.extend_from_slice(a);
    let mut client = ValveProtocol::new(Scripted::new(vec![f1, f0]), 0);
    let data = client.get_request_data(&Engine::Source(None), 17, 0x56, vec![]);
    assert_eq!(data, Ok(vec![0x01, 0x00, b'x', 0x00, b'y', 0x00]));
}

#[test]
fn app_id_filter_accepts_and_rejects() {
    let engine = Engine::Source(Some((240, None)));
    assert_eq!(check_app_id(&engine, true, 240), Ok(()));
    assert_eq!(check_app_id(&engine, true, 320), Err(QueryError::BadGame(320)));
    assert_eq!(check_app_id(&engine, false, 320), Ok(()));
    let dedicated = Engine::Source(Some((240, Some(232330))));
    assert_eq!(check_app_id(&dedicated, true, 232330), Ok(()));
    assert_eq!(check_app_id(&Engine::GoldSrc(false), true, 320), Ok(()));
}

#[test]
fn query_passes_matching_app_id() {
    let replies = vec![
        single(0x49, &source_info(240)),
        single(0x44, &[1, 0, b'p', 0, 7, 0, 0, 0, 0, 0, 0x80, 0x3f]),
        single(0x45, &[1, 0, b'k', 0, b'v', 0]),
    ];
    let mut client = ValveProtocol::new(Scripted::new(replies), 0);
    let settings = GatheringSettings { players: true, rules: true, check_app_id: true };
    let resp = get_response(&mut client, Engine::Source(Some((240, None))), settings).unwrap();
    assert_eq!(resp.info.appid, 240);
    assert_eq!(resp.info.server_type, Server::Dedicated);
    assert_eq!(resp.info.environment_type, Environment::Linux);
    let players = resp.players.unwrap();
    assert_eq!(players.len(), 1);
    assert_eq!(players[0].name, "p");
    assert_eq!(players[0].score, 7);
    assert_eq!(f32::from_bits(players[0].duration_bits), 1.0f32);
    assert_eq!(resp.rules.unwrap(), vec![(String::from("k"), String::from("v"))]);
    // Players were asked with the protocol version of the info response.
    assert_eq!(client.link.transport().sent.len(), 3);
}

#[test]
fn query_rejects_other_app_id_before_players() {
    let replies = vec![single(0x49, &source_info(320)), single(0x44, &[0])];
    let mut client = ValveProtocol::new(Scripted::new(replies), 0);
    let settings = GatheringSettings { players: true, rules: true, check_app_id: true };
    let r = get_response(&mut client, Engine::Source(Some((240, None))), settings);
    assert_eq!(r, Err(QueryError::BadGame(320)));
    assert_eq!(client.link.transport().sent.len(), 1);
}

#[test]
fn query_skips_unrequested_phases() {
    let replies = vec![single(0x49, &source_info(320))];
    let mut client = ValveProtocol::new(Scripted::new(replies), 0);
    let settings = GatheringSettings { players: false, rules: false, check_app_id: false };
    let resp = get_response(&mut client, Engine::Source(Some((240, None))), settings).unwrap();
    assert_eq!(resp.info.appid, 320);
    assert_eq!(resp.players, None);
    assert_eq!(resp.rules, None);
    assert_eq!(GatheringSettings::default(), GatheringSettings { players: true, rules: true, check_app_id: true });
}

const COMPRESSED: [u8; 62] = [
    0x42, 0x5a, 0x68, 0x39, 0x31, 0x41, 0x59, 0x26, 0x53, 0x59, 0x56, 0x8b, 0x3a, 0xee, 0x00, 0x00, 0x09,
    0xcf, 0x80, 0xe0, 0x00, 0x40, 0x00, 0x02, 0x00, 0x00, 0x00, 0xaa, 0x40, 0x0d, 0x00, 0x00, 0x00, 0xa0,
    0x00, 0x22, 0x98, 0x11, 0x8f, 0x50, 0x80, 0x68, 0x02, 0x86, 0x78, 0x8e, 0x17, 0xfc, 0xc2, 0x40, 0xeb,
    0x68, 0xbb, 0x92, 0x29, 0xc2, 0x84, 0x82, 0xb4, 0x59, 0xd7, 0x70,
];

#[test]
fn compressed_split_response_is_decompressed() {
    let mut first = vec![
        0xfe, 0xff, 0xff, 0xff, 0x01, 0x00, 0x00, 0x80, 0x02, 0x00, 0xe0, 0x04, 0x13, 0x00, 0x00, 0x00, 0x52,
        0x0b, 0x88, 0x40,
    ];
    first.extend_from_slice(&COMPRESSED[..40]);
    let mut second = vec![
        0xfe, 0xff, 0xff, 0xff, 0x01, 0x00, 0x00, 0x80, 0x02, 0x01, 0xe0, 0x04, 0x13, 0x00, 0x00, 0x00, 0x52,
        0x0b, 0x88, 0x40,
    ];
    second.extend_from_slice(&COMPRESSED[40..]);
    let mut client = ValveProtocol::new(Scripted::new(vec![second, first]), 0);
    let data = client.get_request_data(&Engine::Source(None), 17, 0x56, vec![]);
    assert_eq!(data, Ok(vec![0x01, 0x00, b's', b'v', b'_', b'c', b'h', b'e', b'a', b't', b's', 0x00, b'0', 0x00]));
}

#[test]
fn corrupt_compressed_response_is_not_retried() {
    let mut first = vec![
        0xfe, 0xff, 0xff, 0xff, 0x01, 0x00, 0x00, 0x80, 0x01, 0x00, 0xe0, 0x04, 0x13, 0x00, 0x00, 0x00, 0x52,
        0x0b, 0x88, 0x41,
    ];
    first.extend_from_slice(&COMPRESSED);
    let mut client = ValveProtocol::new(Scripted::new(vec![first]), 2);
    let data = client.get_request_data(&Engine::Source(None), 17, 0x56, vec![]);
    assert_eq!(data, Err(QueryError::Decompress));
    assert_eq!(client.link.transport().sent.len(), 1);
}

#[test]
fn challenge_reply_decision() {
    let challenge = Packet::new(0x41, vec![1, 2, 3, 4]);
    assert_eq!(challenge_reply(0x56, &challenge), Some(vec![0xff, 0xff, 0xff, 0xff, 0x56, 1, 2, 3, 4]));
    let mut info = vec![0xff, 0xff, 0xff, 0xff, 0x54];
    info.extend_from_slice(b"Source Engine Query\0");
    info.extend_from_slice(&[1, 2, 3, 4]);
    assert_eq!(challenge_reply(0x54, &challenge), Some(info));
    assert_eq!(challenge_reply(0x54, &Packet::new(0x49, vec![9])), None);
}

#[test]
fn fragments_assemble_into_packet() {
    let a = SplitPacket { id: 1, total: 2, number: 1, size: 0, decompressed: None, payload: vec![7, 8] };
    let b = SplitPacket { id: 1, total: 2, number: 0, size: 0, decompressed: None, payload: vec![0xff, 0xff, 0xff, 0xff, 0x49, 6] };
    let p = assemble_fragments(a, vec![b]).unwrap();
    assert_eq!(p.kind, 0x49);
    assert_eq!(p.payload, vec![6, 7, 8]);
    let short = SplitPacket { id: 1, total: 1, number: 0, size: 0, decompressed: None, payload: vec![0xff, 0xff] };
    assert!(matches!(assemble_fragments(short, vec![]), Err(QueryError::PacketUnderflow)));
}
