use vstd::prelude::*;
use crate::cursor::{le16, le32, le64, string_at, Reader};
use crate::decode::{
    goldsrc_environment, goldsrc_environment_spec, goldsrc_server, goldsrc_server_spec, source_environment,
    source_environment_spec, source_server, source_server_spec,
};
use crate::types::{
    quirks_of, quirks_spec, Engine, Environment, ExtraData, ModData, QueryError, Server, ServerInfo, TheShip,
};

verus! {

/// Flag bits of the extra data block.
pub const EDF_PORT: u8 = 0x80;
pub const EDF_STEAM_ID: u8 = 0x10;
pub const EDF_TV: u8 = 0x40;
pub const EDF_KEYWORDS: u8 = 0x20;
pub const EDF_GAME_ID: u8 = 0x01;

/// Mathematical value of an extra data block.
pub struct ExtraSpec {
    pub port: Option<u16>,
    pub steam_id: Option<u64>,
    pub tv_port: Option<u16>,
    pub tv_name: Option<Seq<char>>,
    pub keywords: Option<Seq<char>>,
    pub game_id: Option<u64>,
}

pub open spec fn opt_string_view(s: Option<String>) -> Option<Seq<char>> {
    match s {
        Some(t) => Some(t@),
        None => None,
    }
}

pub open spec fn extra_view(e: ExtraData) -> ExtraSpec {
    ExtraSpec {
        port: e.port,
        steam_id: e.steam_id,
        tv_port: e.tv_port,
        tv_name: opt_string_view(e.tv_name),
        keywords: opt_string_view(e.keywords),
        game_id: e.game_id,
    }
}

/// Mathematical value of the modification block of the obsolete layout.
pub struct ModSpec {
    pub link: Seq<char>,
    pub download_link: Seq<char>,
    pub version: u32,
    pub size: u32,
    pub multiplayer_only: bool,
    pub has_own_dll: bool,
}

/// Mathematical value of an info response.
pub struct InfoSpec {
    pub protocol_version: u8,
    pub name: Seq<char>,
    pub map: Seq<char>,
    pub folder: Seq<char>,
    pub game_mode: Seq<char>,
    pub appid: u32,
    pub players_online: u8,
    pub players_maximum: u8,
    pub players_bots: u8,
    pub server_type: Server,
    pub environment_type: Environment,
    pub has_password: bool,
    pub vac_secured: bool,
    pub the_ship: Option<TheShip>,
    pub game_version: Seq<char>,
    pub extra_data: Option<ExtraSpec>,
    pub is_mod: bool,
    pub mod_data: Option<ModSpec>,
}

pub open spec fn info_view(i: ServerInfo) -> InfoSpec {
    InfoSpec {
        protocol_version: i.protocol_version,
        name: i.name@,
        map: i.map@,
        folder: i.folder@,
        game_mode: i.game_mode@,
        appid: i.appid,
        players_online: i.players_online,
        players_maximum: i.players_maximum,
        players_bots: i.players_bots,
        server_type: i.server_type,
        environment_type: i.environment_type,
        has_password: i.has_password,
        vac_secured: i.vac_secured,
        the_ship: i.the_ship,
        game_version: i.game_version@,
        extra_data: match i.extra_data {
            Some(e) => Some(extra_view(e)),
            None => None,
        },
        is_mod: i.is_mod,
        mod_data: match i.mod_data {
            Some(m) => Some(ModSpec {
                link: m.link@,
                download_link: m.download_link@,
                version: m.version,
                size: m.size,
                multiplayer_only: m.multiplayer_only,
                has_own_dll: m.has_own_dll,
            }),
            None => None,
        },
    }
}

/// `n` consecutive null-terminated strings from `p` on, and the position after them.
pub open spec fn strings_at(s: Seq<u8>, p: int, n: nat) -> Result<(Seq<Seq<char>>, int), QueryError>
    decreases n,
{
    if n == 0 {
        Ok((Seq::empty(), p))
    } else {
        match string_at(s, p) {
            Err(e) => Err(e),
            Ok((t, q)) => match strings_at(s, q, (n - 1) as nat) {
                Err(e) => Err(e),
                Ok((ts, r)) => Ok((seq![t] + ts, r)),
            },
        }
    }
}

pub open spec fn opt_u16_at(s: Seq<u8>, p: int, present: bool) -> Result<(Option<u16>, int), QueryError> {
    if !present {
        Ok((None, p))
    } else if p + 2 > s.len() {
        Err(QueryError::PacketUnderflow)
    } else {
        Ok((Some(le16(s, p) as u16), p + 2))
    }
}

pub open spec fn opt_u64_at(s: Seq<u8>, p: int, present: bool) -> Result<(Option<u64>, int), QueryError> {
    if !present {
        Ok((None, p))
    } else if p + 8 > s.len() {
        Err(QueryError::PacketUnderflow)
    } else {
        Ok((Some(le64(s, p) as u64), p + 8))
    }
}

pub open spec fn opt_string_at(s: Seq<u8>, p: int, present: bool) -> Result<(Option<Seq<char>>, int), QueryError> {
    if !present {
        Ok((None, p))
    } else {
        match string_at(s, p) {
            Err(e) => Err(e),
            Ok((t, q)) => Ok((Some(t), q)),
        }
    }
}

/// The fields that `flags` announces, read from `p` in wire order: port,
/// Steam id, spectator port and name, keywords, game id.
pub open spec fn extra_spec(s: Seq<u8>, p: int, flags: u8) -> Result<(ExtraSpec, int), QueryError> {
    match opt_u16_at(s, p, flags & EDF_PORT != 0) {
        Err(e) => Err(e),
        Ok((port, p1)) => match opt_u64_at(s, p1, flags & EDF_STEAM_ID != 0) {
            Err(e) => Err(e),
            Ok((steam_id, p2)) => match opt_u16_at(s, p2, flags & EDF_TV != 0) {
                Err(e) => Err(e),
                Ok((tv_port, p3)) => match opt_string_at(s, p3, flags & EDF_TV != 0) {
                    Err(e) => Err(e),
                    Ok((tv_name, p4)) => match opt_string_at(s, p4, flags & EDF_KEYWORDS != 0) {
                        Err(e) => Err(e),
                        Ok((keywords, p5)) => match opt_u64_at(s, p5, flags & EDF_GAME_ID != 0) {
                            Err(e) => Err(e),
                            Ok((game_id, p6)) => Ok((ExtraSpec { port, steam_id, tv_port, tv_name, keywords, game_id }, p6)),
                        },
                    },
                },
            },
        },
    }
}

/// Each field of the block is present exactly when its flag bit is set.
pub open spec fn extra_fields_match(e: ExtraData, flags: u8) -> bool {
    &&& (e.port is Some <==> flags & EDF_PORT != 0)
    &&& (e.steam_id is Some <==> flags & EDF_STEAM_ID != 0)
    &&& (e.tv_port is Some <==> flags & EDF_TV != 0)
    &&& (e.tv_name is Some <==> flags & EDF_TV != 0)
    &&& (e.keywords is Some <==> flags & EDF_KEYWORDS != 0)
    &&& (e.game_id is Some <==> flags & EDF_GAME_ID != 0)
}

/// Reads the fields that `flags` announces.
pub fn read_extra_data(reader: &mut Reader, flags: u8) -> (r: Result<ExtraData, QueryError>)
    requires
        old(reader).wf(),
    ensures
        final(reader).wf(),
        final(reader).data@ == old(reader).data@,
        match extra_spec(old(reader).data@, old(reader).pos as int, flags) {
            Ok((e, q)) => r matches Ok(x) && extra_view(x) == e && final(reader).pos == q,
            Err(e) => r matches Err(x) && x == e,
        },
        r matches Ok(e) ==> extra_fields_match(e, flags),
        flags == 0 ==> r == Ok::<ExtraData, QueryError>(ExtraData {
            port: None, steam_id: None, tv_port: None, tv_name: None, keywords: None, game_id: None,
        }) && final(reader).pos == old(reader).pos,
{
    assert(flags == 0 ==> flags & EDF_PORT == 0 && flags & EDF_STEAM_ID == 0 && flags & EDF_TV == 0
        && flags & EDF_KEYWORDS == 0 && flags & EDF_GAME_ID == 0) by (bit_vector);
    let port = if flags & EDF_PORT != 0 { Some(reader.read_u16()?) } else { None };
    let steam_id = if flags & EDF_STEAM_ID != 0 { Some(reader.read_u64()?) } else { None };
    let tv_port = if flags & EDF_TV != 0 { Some(reader.read_u16()?) } else { None };
    let tv_name = if flags & EDF_TV != 0 { Some(reader.read_string()?) } else { None };
    let keywords = if flags & EDF_KEYWORDS != 0 { Some(reader.read_string()?) } else { None };
    let game_id = if flags & EDF_GAME_ID != 0 { Some(reader.read_u64()?) } else { None };
    Ok(ExtraData { port, steam_id, tv_port, tv_name, keywords, game_id })
}

/// The application id that a game id carries in its low 24 bits.
pub open spec fn appid_of_game_id(gid: u64) -> u32 {
    (gid % 0x100_0000) as u32
}

pub fn game_id_appid(gid: u64) -> (r: u32)
    ensures
        r == appid_of_game_id(gid),
{
    (gid % 0x100_0000) as u32
}

/// The modification block of the obsolete layout at `p`, when present.
pub open spec fn mod_spec(s: Seq<u8>, p: int, present: bool) -> Result<(Option<ModSpec>, int), QueryError> {
    if !present {
        Ok((None, p))
    } else {
        match strings_at(s, p, 2) {
            Err(e) => Err(e),
            Ok((m, r)) => if r + 10 > s.len() {
                Err(QueryError::PacketUnderflow)
            } else {
                Ok((Some(ModSpec {
                    link: m[0],
                    download_link: m[1],
                    version: le32(s, r) as u32,
                    size: le32(s, r + 4) as u32,
                    multiplayer_only: s[r + 8] == 1,
                    has_own_dll: s[r + 9] == 1,
                }), r + 10))
            },
        }
    }
}

/// Decoding of an info response in the obsolete GoldSrc layout: a header
/// byte, the address, name, map, folder and game strings, player counts,
/// protocol, server kind, environment, flags, the modification block when
/// the server reports a mod, the anti-cheat flag and the bot count.
pub open spec fn goldsrc_info_spec(s: Seq<u8>) -> Result<InfoSpec, QueryError> {
    if s.len() < 1 {
        Err(QueryError::PacketUnderflow)
    } else {
        match strings_at(s, 1, 5) {
            Err(e) => Err(e),
            Ok((t, q)) => if q + 4 > s.len() {
                Err(QueryError::PacketUnderflow)
            } else {
                match goldsrc_server_spec(s[q + 3]) {
                    None => Err(QueryError::UnknownEnumCast),
                    Some(st) => if q + 5 > s.len() {
                        Err(QueryError::PacketUnderflow)
                    } else {
                        match goldsrc_environment_spec(s[q + 4]) {
                            None => Err(QueryError::UnknownEnumCast),
                            Some(env) => if q + 7 > s.len() {
                                Err(QueryError::PacketUnderflow)
                            } else {
                                match mod_spec(s, q + 7, s[q + 6] == 1) {
                                    Err(e) => Err(e),
                                    Ok((md, p)) => if p + 2 > s.len() {
                                        Err(QueryError::PacketUnderflow)
                                    } else {
                                        Ok(InfoSpec {
                                            protocol_version: s[q + 2],
                                            name: t[1],
                                            map: t[2],
                                            folder: t[3],
                                            game_mode: t[4],
                                            appid: 0,
                                            players_online: s[q],
                                            players_maximum: s[q + 1],
                                            players_bots: s[p + 1],
                                            server_type: st,
                                            environment_type: env,
                                            has_password: s[q + 5] == 1,
                                            vac_secured: s[p] == 1,
                                            the_ship: None,
                                            game_version: Seq::empty(),
                                            extra_data: None,
                                            is_mod: s[q + 6] == 1,
                                            mod_data: md,
                                        })
                                    },
                                }
                            },
                        }
                    },
                }
            },
        }
    }
}

proof fn lemma_strings_step(s: Seq<u8>, p: int, n: nat, t: Seq<char>, q: int)
    requires
        n > 0,
        string_at(s, p) == Ok::<(Seq<char>, int), QueryError>((t, q)),
    ensures
        strings_at(s, p, n) == match strings_at(s, q, (n - 1) as nat) {
            Err(e) => Err(e),
            Ok((ts, r)) => Ok::<(Seq<Seq<char>>, int), QueryError>((seq![t] + ts, r)),
        },
{
}

proof fn lemma_strings_len(s: Seq<u8>, p: int, n: nat)
    ensures
        strings_at(s, p, n) matches Ok((ts, _)) ==> ts.len() == n,
    decreases n,
{
    if n > 0 {
        if let Ok((t, q)) = string_at(s, p) {
            lemma_strings_len(s, q, (n - 1) as nat);
        }
    }
}

/// Reads `n` strings; on success their characters are those that
/// `strings_at` gives.
pub(crate) fn read_strings(reader: &mut Reader, n: usize) -> (r: Result<Vec<String>, QueryError>)
    requires
        old(reader).wf(),
    ensures
        final(reader).wf(),
        final(reader).data@ == old(reader).data@,
        match strings_at(old(reader).data@, old(reader).pos as int, n as nat) {
            Ok((ts, q)) => r matches Ok(v) && v@.len() == n && ts.len() == n && final(reader).pos == q
                && forall|i: int| 0 <= i < n ==> (#[trigger] v@[i])@ == ts[i],
            Err(e) => r matches Err(x) && x == e,
        },
{
    let ghost s = reader.data@;
    let ghost p0 = reader.pos as int;
    let mut out: Vec<String> = Vec::new();
    let mut k: usize = 0;
    proof {
        lemma_strings_len(s, p0, n as nat);
    }
    while k < n
        invariant
            reader.wf(),
            reader.data@ == s,
            k <= n,
            out@.len() == k,
            s == old(reader).data@,
            p0 == old(reader).pos,
            match strings_at(s, reader.pos as int, (n - k) as nat) {
                Ok((ts, q)) => match strings_at(s, p0, n as nat) {
                    Ok((all, q2)) => q2 == q && all.len() == n && ts.len() == n - k
                        && (forall|i: int| 0 <= i < k ==> (#[trigger] out@[i])@ == all[i])
                        && (forall|i: int| k <= i < n ==> all[i] == ts[i - k]),
                    Err(_) => false,
                },
                Err(e) => strings_at(s, p0, n as nat) == Err::<(Seq<Seq<char>>, int), QueryError>(e),
            },
        decreases n - k,
    {
        let ghost pos = reader.pos as int;
        let t = reader.read_string()?;
        proof {
            lemma_strings_step(s, pos, (n - k) as nat, t@, reader.pos as int);
            lemma_strings_len(s, reader.pos as int, (n - k - 1) as nat);
        }
        out.push(t);
        k = k + 1;
    }
    Ok(out)
}

/// The optional extra data block at `p`: absent when the payload ends there,
/// else a flags byte and the fields it announces.
pub open spec fn extra_block(s: Seq<u8>, p: int) -> Result<Option<ExtraSpec>, QueryError> {
    if p >= s.len() {
        Ok(None)
    } else {
        match extra_spec(s, p + 1, s[p]) {
            Err(e) => Err(e),
            Ok((e, _)) => Ok(Some(e)),
        }
    }
}

/// The application id of a modern info response: the game id's when the
/// extra data carries one, else the 16-bit field.
pub open spec fn effective_appid(field: u16, extra: Option<ExtraSpec>) -> u32 {
    match extra {
        Some(e) => match e.game_id {
            Some(g) => appid_of_game_id(g),
            None => field as u32,
        },
        None => field as u32,
    }
}

/// Decoding of an info response in the modern layout: protocol, name, map,
/// folder and game strings, the 16-bit application id, player counts,
/// server kind, environment, flags, The Ship's block for that title, the
/// game version, and the optional extra data block.
pub open spec fn source_info_spec(engine: Engine, s: Seq<u8>) -> Result<InfoSpec, QueryError> {
    if s.len() < 1 {
        Err(QueryError::PacketUnderflow)
    } else {
        match strings_at(s, 1, 4) {
            Err(e) => Err(e),
            Ok((t, q)) => if q + 6 > s.len() {
                Err(QueryError::PacketUnderflow)
            } else {
                match source_server_spec(s[q + 5]) {
                    None => Err(QueryError::UnknownEnumCast),
                    Some(st) => if q + 7 > s.len() {
                        Err(QueryError::PacketUnderflow)
                    } else {
                        match source_environment_spec(s[q + 6]) {
                            None => Err(QueryError::UnknownEnumCast),
                            Some(env) => {
                                let ship = quirks_spec(engine).the_ship_fields;
                                let pv = if ship { q + 12 } else { q + 9 };
                                if pv > s.len() {
                                    Err(QueryError::PacketUnderflow)
                                } else {
                                    match string_at(s, pv) {
                                        Err(e) => Err(e),
                                        Ok((gv, pe)) => match extra_block(s, pe) {
                                            Err(e) => Err(e),
                                            Ok(ex) => Ok(InfoSpec {
                                                protocol_version: s[0],
                                                name: t[0],
                                                map: t[1],
                                                folder: t[2],
                                                game_mode: t[3],
                                                appid: effective_appid(le16(s, q) as u16, ex),
                                                players_online: s[q + 2],
                                                players_maximum: s[q + 3],
                                                players_bots: s[q + 4],
                                                server_type: st,
                                                environment_type: env,
                                                has_password: s[q + 7] == 1,
                                                vac_secured: s[q + 8] == 1,
                                                the_ship: if ship {
                                                    Some(TheShip { mode: s[q + 9], witnesses: s[q + 10], duration: s[q + 11] })
                                                } else {
                                                    None
                                                },
                                                game_version: gv,
                                                extra_data: ex,
                                                is_mod: false,
                                                mod_data: None,
                                            }),
                                        },
                                    }
                                }
                            },
                        }
                    },
                }
            },
        }
    }
}

/// Decodes an info response in the obsolete GoldSrc layout.
pub fn decode_goldsrc_info(data: Vec<u8>) -> (r: Result<ServerInfo, QueryError>)
    ensures
        match goldsrc_info_spec(data@) {
            Ok(i) => r matches Ok(x) && info_view(x) == i,
            Err(e) => r matches Err(x) && x == e,
        },
{
    let ghost s = data@;
    let mut reader = Reader::new(data);
    let _header = reader.read_u8()?;
    let t = read_strings(&mut reader, 5)?;
    let players = reader.read_u8()?;
    let max_players = reader.read_u8()?;
    let protocol = reader.read_u8()?;
    let server_type = goldsrc_server(reader.read_u8()?)?;
    let environment_type = goldsrc_environment(reader.read_u8()?)?;
    let has_password = reader.read_u8()? == 1;
    let is_mod = reader.read_u8()? == 1;
    let ghost pm = reader.pos as int;
    let mod_data = if is_mod {
        let m = read_strings(&mut reader, 2)?;
        let version = reader.read_u32()?;
        let size = reader.read_u32()?;
        let multiplayer_only = reader.read_u8()? == 1;
        let has_own_dll = reader.read_u8()? == 1;
        Some(ModData { link: m[0].clone(), download_link: m[1].clone(), version, size, multiplayer_only, has_own_dll })
    } else {
        None
    };
    let vac_secured = reader.read_u8()? == 1;
    let bots = reader.read_u8()?;
    Ok(ServerInfo {
        protocol_version: protocol,
        name: t[1].clone(),
        map: t[2].clone(),
        folder: t[3].clone(),
        game_mode: t[4].clone(),
        appid: 0,
        players_online: players,
        players_maximum: max_players,
        players_bots: bots,
        server_type,
        environment_type,
        has_password,
        vac_secured,
        the_ship: None,
        game_version: String::new(),
        extra_data: None,
        is_mod,
        mod_data,
    })
}

/// Decodes an info response in the modern layout, with the extensions of the
/// title that `engine` identifies.
pub fn decode_source_info(engine: &Engine, data: Vec<u8>) -> (r: Result<ServerInfo, QueryError>)
    ensures
        match source_info_spec(*engine, data@) {
            Ok(i) => r matches Ok(x) && info_view(x) == i,
            Err(e) => r matches Err(x) && x == e,
        },
{
    let ghost s = data@;
    let mut reader = Reader::new(data);
    let protocol = reader.read_u8()?;
    let t = read_strings(&mut reader, 4)?;
    let appid_field = reader.read_u16()?;
    let players = reader.read_u8()?;
    let max_players = reader.read_u8()?;
    let bots = reader.read_u8()?;
    let server_type = source_server(reader.read_u8()?)?;
    let environment_type = source_environment(reader.read_u8()?)?;
    let has_password = reader.read_u8()? == 1;
    let vac_secured = reader.read_u8()? == 1;
    let the_ship = if quirks_of(engine).the_ship_fields {
        let mode = reader.read_u8()?;
        let witnesses = reader.read_u8()?;
        let duration = reader.read_u8()?;
        Some(TheShip { mode, witnesses, duration })
    } else {
        None
    };
    let game_version = reader.read_string()?;
    let ghost pe = reader.pos as int;
    let mut appid = appid_field as u32;
    let extra_data = if reader.remaining() > 0 {
        let flags = reader.read_u8()?;
        let extra = read_extra_data(&mut reader, flags)?;
        if let Some(gid) = extra.game_id {
            appid = game_id_appid(gid);
        }
        Some(extra)
    } else {
        None
    };
    Ok(ServerInfo {
        protocol_version: protocol,
        name: t[0].clone(),
        map: t[1].clone(),
        folder: t[2].clone(),
        game_mode: t[3].clone(),
        appid,
        players_online: players,
        players_maximum: max_players,
        players_bots: bots,
        server_type,
        environment_type,
        has_password,
        vac_secured,
        the_ship,
        game_version,
        extra_data,
        is_mod: false,
        mod_data: None,
    })
}

/// True when `engine` forces the obsolete GoldSrc info layout.
pub open spec fn forces_legacy(engine: Engine) -> bool {
    engine == Engine::GoldSrc(true)
}

/// Decoding of an info response in the layout that `engine` selects.
pub open spec fn info_spec(engine: Engine, s: Seq<u8>) -> Result<InfoSpec, QueryError> {
    if forces_legacy(engine) {
        goldsrc_info_spec(s)
    } else {
        source_info_spec(engine, s)
    }
}

/// Decodes an info response in the layout that `engine` selects.
pub fn decode_info(engine: &Engine, data: Vec<u8>) -> (r: Result<ServerInfo, QueryError>)
    ensures
        match info_spec(*engine, data@) {
            Ok(i) => r matches Ok(x) && info_view(x) == i,
            Err(e) => r matches Err(x) && x == e,
        },
{
    match engine {
        Engine::GoldSrc(true) => decode_goldsrc_info(data),
        _ => decode_source_info(engine, data),
    }
}

} // verus!
