use valve_query::cursor::Reader;
use valve_query::decode::{
    decode_players, decode_rules, goldsrc_environment, goldsrc_server, source_environment, source_server,
};
use valve_query::info::{decode_goldsrc_info, decode_info, read_extra_data};
use valve_query::types::{quirks_of, Engine, Environment, ExtraData, QueryError, Quirks, Server};

fn goldsrc_legacy(server_type: u8, environment: u8, is_mod: bool) -> Vec<u8> {
    let mut v = vec![0x6d];
    v.extend_from_slice(b"1.2.3.4:27015\0name\0map\0valve\0Half-Life\0");
    v.extend_from_slice(&[3, 16, 47, server_type, environment, 0, is_mod as u8]);
    if is_mod {
        v.extend_from_slice(b"http://a\0http://b\0");
        v.extend_from_slice(&[1, 0, 0, 0, 0, 0x10, 0, 0, 1, 0]);
    }
    v.extend_from_slice(&[1, 2]);
    v
}

fn source_info_with(engine_ship: bool, extra: &[u8]) -> Vec<u8> {
    let mut v = vec![0x11];
    v.extend_from_slice(b"name\0map\0folder\0game\0");
    v.extend_from_slice(&2400u16.to_le_bytes());
    v.extend_from_slice(&[5, 10, 1, b'd', b'w', 1, 0]);
    if engine_ship {
        v.extend_from_slice(&[2, 3, 4]);
    }
    v.extend_from_slice(b"1.0\0");
    v.extend_from_slice(extra);
    v
}

#[test]
fn goldsrc_dedicated_linux() {
    let info = decode_info(&Engine::GoldSrc(true), goldsrc_legacy(0x44, 0x4c, false)).unwrap();
    assert_eq!(info.server_type, Server::Dedicated);
    assert_eq!(info.environment_type, Environment::Linux);
    assert_eq!(info.name, "name");
    assert_eq!(info.folder, "valve");
    assert_eq!(info.players_online, 3);
    assert_eq!(info.players_maximum, 16);
    assert_eq!(info.protocol_version, 47);
    assert_eq!(info.appid, 0);
    assert!(info.vac_secured);
    assert_eq!(info.players_bots, 2);
    assert_eq!(info.mod_data, None);
}

#[test]
fn goldsrc_unknown_server_type() {
    assert_eq!(decode_goldsrc_info(goldsrc_legacy(0x00, 0x4c, false)), Err(QueryError::UnknownEnumCast));
    assert_eq!(decode_goldsrc_info(goldsrc_legacy(0x44, 0x00, false)), Err(QueryError::UnknownEnumCast));
}

#[test]
fn goldsrc_mod_block() {
    let info = decode_goldsrc_info(goldsrc_legacy(0x50, 0x57, true)).unwrap();
    assert_eq!(info.server_type, Server::TV);
    assert_eq!(info.environment_type, Environment::Windows);
    assert!(info.is_mod);
    let m = info.mod_data.unwrap();
    assert_eq!(m.link, "http://a");
    assert_eq!(m.download_link, "http://b");
    assert_eq!(m.version, 1);
    assert_eq!(m.size, 0x1000);
    assert!(m.multiplayer_only);
    assert!(!m.has_own_dll);
}

#[test]
fn enum_tables() {
    assert_eq!(goldsrc_server(b'L'), Ok(Server::NonDedicated));
    assert_eq!(goldsrc_environment(b'W'), Ok(Environment::Windows));
    assert_eq!(source_server(b'p'), Ok(Server::TV));
    assert_eq!(source_server(b'D'), Err(QueryError::UnknownEnumCast));
    assert_eq!(source_environment(b'l'), Ok(Environment::Linux));
    assert_eq!(source_environment(b'x'), Err(QueryError::UnknownEnumCast));
}

#[test]
fn source_info_without_extra_data() {
    let info = decode_info(&Engine::Source(None), source_info_with(false, &[])).unwrap();
    assert_eq!(info.appid, 2400);
    assert_eq!(info.server_type, Server::Dedicated);
    assert_eq!(info.environment_type, Environment::Windows);
    assert!(info.has_password);
    assert_eq!(info.the_ship, None);
    assert_eq!(info.game_version, "1.0");
    assert_eq!(info.extra_data, None);
}

#[test]
fn source_info_the_ship_block() {
    let info = decode_info(&Engine::new(2400), source_info_with(true, &[])).unwrap();
    let ship = info.the_ship.unwrap();
    assert_eq!((ship.mode, ship.witnesses, ship.duration), (2, 3, 4));
}

#[test]
fn extra_data_no_flags() {
    let info = decode_info(&Engine::Source(None), source_info_with(false, &[0])).unwrap();
    let e = info.extra_data.unwrap();
    assert_eq!(e, ExtraData { port: None, steam_id: None, tv_port: None, tv_name: None, keywords: None, game_id: None });
}

#[test]
fn extra_data_single_bits() {
    let none = ExtraData { port: None, steam_id: None, tv_port: None, tv_name: None, keywords: None, game_id: None };
    let mut r = Reader::new(vec![0x87, 0x69]);
    assert_eq!(read_extra_data(&mut r, 0x80), Ok(ExtraData { port: Some(27015), ..none.clone() }));
    let mut r = Reader::new(vec![1, 0, 0, 0, 0, 0, 0, 0x90]);
    assert_eq!(read_extra_data(&mut r, 0x10), Ok(ExtraData { steam_id: Some(0x9000000000000001), ..none.clone() }));
    let mut r = Reader::new(vec![0x88, 0x69, b't', b'v', 0]);
    assert_eq!(
        read_extra_data(&mut r, 0x40),
        Ok(ExtraData { tv_port: Some(27016), tv_name: Some(String::from("tv")), ..none.clone() })
    );
    let mut r = Reader::new(vec![b'k', 0]);
    assert_eq!(read_extra_data(&mut r, 0x20), Ok(ExtraData { keywords: Some(String::from("k")), ..none.clone() }));
    let mut r = Reader::new(vec![0xf0, 0, 0, 0, 0, 0, 0, 1]);
    assert_eq!(read_extra_data(&mut r, 0x01), Ok(ExtraData { game_id: Some(0x01000000000000f0), ..none.clone() }));
    assert_eq!(r.remaining(), 0);
}

#[test]
fn game_id_overrides_app_id() {
    let info = decode_info(&Engine::Source(None), source_info_with(false, &[0x01, 0x3a, 0x2b, 0x1c, 0, 0, 0, 0, 9])).unwrap();
    assert_eq!(info.appid, 0x1c2b3a);
    assert_eq!(info.extra_data.unwrap().game_id, Some(0x0900_0000_001c_2b3a));
}

#[test]
fn truncated_payloads_fail_with_underflow() {
    let full = source_info_with(false, &[]);
    for n in 0..full.len() {
        assert_eq!(decode_info(&Engine::Source(None), full[..n].to_vec()), Err(QueryError::PacketUnderflow), "length {}", n);
    }
    let legacy = goldsrc_legacy(0x44, 0x4c, true);
    for n in 0..legacy.len() {
        assert_eq!(decode_goldsrc_info(legacy[..n].to_vec()), Err(QueryError::PacketUnderflow), "length {}", n);
    }
    assert_eq!(decode_players(&Engine::Source(None), vec![]), Err(QueryError::PacketUnderflow));
    assert_eq!(decode_players(&Engine::Source(None), vec![2, 0, b'a', 0, 1, 0, 0, 0]), Err(QueryError::PacketUnderflow));
    assert_eq!(decode_rules(&Engine::Source(None), vec![1]), Err(QueryError::PacketUnderflow));
    assert_eq!(decode_rules(&Engine::Source(None), vec![1, 0, b'a', 0]), Err(QueryError::PacketUnderflow));
    let with_flags = source_info_with(false, &[0x80, 0x87]);
    assert_eq!(decode_info(&Engine::Source(None), with_flags), Err(QueryError::PacketUnderflow));
}

#[test]
fn players_of_the_ship() {
    let data = vec![1, 0, b'a', 0, 5, 0, 0, 0, 0, 0, 0, 0, 3, 0, 0, 0, 100, 0, 0, 0];
    let players = decode_players(&Engine::new(2400), data.clone()).unwrap();
    assert_eq!(players[0].deaths, Some(3));
    assert_eq!(players[0].money, Some(100));
    let plain = decode_players(&Engine::Source(None), data[..12].to_vec()).unwrap();
    assert_eq!(plain[0].deaths, None);
    assert_eq!(plain[0].money, None);
    assert_eq!(decode_players(&Engine::Source(None), vec![0]), Ok(vec![]));
}

#[test]
fn rules_keep_last_value_and_drop_bogus_key() {
    let data = vec![3, 0, b'a', 0, b'1', 0, b'T', b'e', b's', b't', 0, b'x', 0, b'a', 0, b'2', 0];
    let mut rules = decode_rules(&Engine::Source(None), data.clone()).unwrap();
    rules.sort();
    assert_eq!(rules, vec![(String::from("Test"), String::from("x")), (String::from("a"), String::from("2"))]);
    let ror2 = decode_rules(&Engine::new(632360), data).unwrap();
    assert_eq!(ror2, vec![(String::from("a"), String::from("2"))]);
    assert_eq!(decode_rules(&Engine::new(632360), vec![0, 0]), Ok(vec![]));
}

#[test]
fn quirk_table() {
    assert_eq!(quirks_of(&Engine::new(240)), Quirks { implicit_fragment_size: true, the_ship_fields: false, drop_test_rule: false });
    assert_eq!(quirks_of(&Engine::new(2400)).the_ship_fields, true);
    assert_eq!(quirks_of(&Engine::Source(Some((2400, Some(1))))).the_ship_fields, false);
    assert_eq!(quirks_of(&Engine::GoldSrc(false)), Quirks { implicit_fragment_size: false, the_ship_fields: false, drop_test_rule: false });
}

#[test]
fn cut_after_game_version_drops_only_extra_data() {
    let full = source_info_with(false, &[0x80, 0x87, 0x69]);
    let version_end = full.len() - 3;
    let cut = decode_info(&Engine::Source(None), full[..version_end].to_vec()).unwrap();
    assert_eq!(cut.extra_data, None);
    for n in version_end + 1..full.len() {
        assert_eq!(decode_info(&Engine::Source(None), full[..n].to_vec()), Err(QueryError::PacketUnderflow));
    }
    let whole = decode_info(&Engine::Source(None), full).unwrap();
    assert_eq!(whole.extra_data.unwrap().port, Some(27015));
}
