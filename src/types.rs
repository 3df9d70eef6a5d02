use vstd::prelude::*;

verus! {

/// Application id of Counter-Strike: Source, whose protocol-7 servers omit
/// the fragment size field of split packets.
pub const CSS_APP_ID: u32 = 240;

/// Application id of The Ship, which extends the info and player records.
pub const THE_SHIP_APP_ID: u32 = 2400;

/// Application id of Risk of Rain 2, whose servers report a bogus `Test` rule.
pub const ROR2_APP_ID: u32 = 632360;

/// Fragment size assumed when a split header leaves the size field out.
pub const FIXED_FRAGMENT_SIZE: u16 = 1248;

/// Protocol dialect spoken by a server.
#[derive(Clone, Copy, Debug, PartialEq, Eq)]
pub enum Engine {
    /// GoldSrc; `true` forces the obsolete info layout.
    GoldSrc(bool),
    /// Source, with an optional (primary, dedicated) application id filter.
    Source(Option<(u32, Option<u32>)>),
}

impl Engine {
    /// The Source engine filtered on a single application id.
    pub fn new(appid: u32) -> (r: Engine)
        ensures
            r == Engine::Source(Some((appid, None))),
    {
        Engine::Source(Some((appid, None)))
    }
}

/// True when the engine identifies exactly the title `appid`.
pub open spec fn is_title(engine: Engine, appid: u32) -> bool {
    engine == Engine::Source(Some((appid, None::<u32>)))
}

/// Per-title deviations from the generic wire format.
#[derive(Clone, Copy, Debug, PartialEq, Eq, Structural)]
pub struct Quirks {
    /// Protocol-7 split headers carry no fragment size field.
    pub implicit_fragment_size: bool,
    /// Info and player records carry The Ship's extra fields.
    pub the_ship_fields: bool,
    /// The `Test` rule is removed from the rule set.
    pub drop_test_rule: bool,
}

pub open spec fn quirks_spec(engine: Engine) -> Quirks {
    Quirks {
        implicit_fragment_size: is_title(engine, CSS_APP_ID),
        the_ship_fields: is_title(engine, THE_SHIP_APP_ID),
        drop_test_rule: is_title(engine, ROR2_APP_ID),
    }
}

/// Looks up the quirks of the title that `engine` identifies.
pub fn quirks_of(engine: &Engine) -> (r: Quirks)
    ensures
        r == quirks_spec(*engine),
{
    let code: Option<u32> = match engine {
        Engine::Source(Some((appid, None))) => Some(*appid),
        _ => None,
    };
    match code {
        Some(id) => Quirks {
            implicit_fragment_size: id == CSS_APP_ID,
            the_ship_fields: id == THE_SHIP_APP_ID,
            drop_test_rule: id == ROR2_APP_ID,
        },
        None => Quirks { implicit_fragment_size: false, the_ship_fields: false, drop_test_rule: false },
    }
}

/// Everything that can end a query.
#[derive(Clone, Copy, Debug, PartialEq, Eq, Structural)]
pub enum QueryError {
    /// The transport gave no data in time; retried up to the retry budget.
    Timeout,
    /// The transport failed otherwise.
    Transport,
    /// A read needed more bytes than the payload holds.
    PacketUnderflow,
    /// The payload is malformed (a string that is not UTF-8, a bad fragment header).
    PacketBad,
    /// Decompression failed or its result does not match the declared size or CRC32.
    Decompress,
    /// A byte has no meaning in an enumerated field.
    UnknownEnumCast,
    /// The server's application id fails the configured filter.
    BadGame(u32),
}

/// Kind of server.
#[derive(Clone, Copy, Debug, PartialEq, Eq, Structural)]
pub enum Server {
    Dedicated,
    NonDedicated,
    TV,
}

/// Operating system of the server.
#[derive(Clone, Copy, Debug, PartialEq, Eq, Structural)]
pub enum Environment {
    Linux,
    Windows,
}

/// The Ship's extension of the info response.
#[derive(Clone, Copy, Debug, PartialEq, Eq, Structural)]
pub struct TheShip {
    pub mode: u8,
    pub witnesses: u8,
    pub duration: u8,
}

/// Optional trailing fields of the modern info response.
#[derive(Clone, Debug, PartialEq, Eq)]
pub struct ExtraData {
    pub port: Option<u16>,
    pub steam_id: Option<u64>,
    pub tv_port: Option<u16>,
    pub tv_name: Option<String>,
    pub keywords: Option<String>,
    pub game_id: Option<u64>,
}

/// Modification block of the obsolete GoldSrc info response.
#[derive(Clone, Debug, PartialEq, Eq)]
pub struct ModData {
    pub link: String,
    pub download_link: String,
    pub version: u32,
    pub size: u32,
    pub multiplayer_only: bool,
    pub has_own_dll: bool,
}

/// Decoded info response.
#[derive(Clone, Debug, PartialEq, Eq)]
pub struct ServerInfo {
    pub protocol_version: u8,
    pub name: String,
    pub map: String,
    pub folder: String,
    pub game_mode: String,
    pub appid: u32,
    pub players_online: u8,
    pub players_maximum: u8,
    pub players_bots: u8,
    pub server_type: Server,
    pub environment_type: Environment,
    pub has_password: bool,
    pub vac_secured: bool,
    pub the_ship: Option<TheShip>,
    pub game_version: String,
    pub extra_data: Option<ExtraData>,
    pub is_mod: bool,
    pub mod_data: Option<ModData>,
}

/// One record of the players response. The connection time is kept as the
/// raw bits of the little-endian IEEE-754 single the server sent.
#[derive(Clone, Debug, PartialEq, Eq)]
pub struct ServerPlayer {
    pub name: String,
    pub score: i32,
    pub duration_bits: u32,
    pub deaths: Option<u32>,
    pub money: Option<u32>,
}

/// Which optional phases a query gathers, and whether an application id
/// mismatch is fatal.
#[derive(Clone, Copy, Debug, PartialEq, Eq, Structural)]
pub struct GatheringSettings {
    pub players: bool,
    pub rules: bool,
    pub check_app_id: bool,
}

impl Default for GatheringSettings {
    fn default() -> (r: GatheringSettings)
        ensures
            r == (GatheringSettings { players: true, rules: true, check_app_id: true }),
    {
        GatheringSettings { players: true, rules: true, check_app_id: true }
    }
}

/// Result of a whole query.
#[derive(Clone, Debug, PartialEq, Eq)]
pub struct Response {
    pub info: ServerInfo,
    pub players: Option<Vec<ServerPlayer>>,
    pub rules: Option<Vec<(String, String)>>,
}

/// Request kinds, each with its discriminator byte.
#[derive(Clone, Copy, Debug, PartialEq, Eq, Structural)]
pub enum Request {
    Info,
    Players,
    Rules,
}

pub const INFO_KIND: u8 = 0x54;
pub const PLAYERS_KIND: u8 = 0x55;
pub const RULES_KIND: u8 = 0x56;

/// Kind byte of a challenge response.
pub const CHALLENGE_KIND: u8 = 0x41;

pub open spec fn request_kind_spec(r: Request) -> u8 {
    match r {
        Request::Info => INFO_KIND,
        Request::Players => PLAYERS_KIND,
        Request::Rules => RULES_KIND,
    }
}

/// `"Source Engine Query\0"`, the probe that the info request carries.
pub open spec fn info_probe() -> Seq<u8> {
    seq![0x53u8, 0x6fu8, 0x75u8, 0x72u8, 0x63u8, 0x65u8, 0x20u8, 0x45u8, 0x6eu8, 0x67u8,
        0x69u8, 0x6eu8, 0x65u8, 0x20u8, 0x51u8, 0x75u8, 0x65u8, 0x72u8, 0x79u8, 0x00u8]
}

pub open spec fn default_payload_spec(r: Request) -> Seq<u8> {
    match r {
        Request::Info => info_probe(),
        _ => seq![0xffu8, 0xffu8, 0xffu8, 0xffu8],
    }
}

impl Request {
    /// The discriminator byte of this request.
    pub fn kind(&self) -> (r: u8)
        ensures
            r == request_kind_spec(*self),
    {
        match self {
            Request::Info => INFO_KIND,
            Request::Players => PLAYERS_KIND,
            Request::Rules => RULES_KIND,
        }
    }

    /// The payload this request carries before any challenge.
    pub fn get_default_payload(&self) -> (r: Vec<u8>)
        ensures
            r@ == default_payload_spec(*self),
    {
        match self {
            Request::Info => {
                let v: Vec<u8> = vec![0x53u8, 0x6fu8, 0x75u8, 0x72u8, 0x63u8, 0x65u8, 0x20u8,
                    0x45u8, 0x6eu8, 0x67u8, 0x69u8, 0x6eu8, 0x65u8, 0x20u8, 0x51u8, 0x75u8,
                    0x65u8, 0x72u8, 0x79u8, 0x00u8];
                assert(v@ =~= info_probe());
                v
            },
            _ => {
                let v: Vec<u8> = vec![0xffu8, 0xffu8, 0xffu8, 0xffu8];
                assert(v@ =~= seq![0xffu8, 0xffu8, 0xffu8, 0xffu8]);
                v
            },
        }
    }
}

} // verus!
