use vstd::prelude::*;
use crate::cursor::{le16, le32, string_at, Reader};
use crate::info::{read_strings, strings_at};
use crate::types::{quirks_of, quirks_spec, Engine, Environment, QueryError, Server, ServerPlayer};

verus! {

/// Server kind in the obsolete GoldSrc layout: 'D', 'L', 'P'.
pub open spec fn goldsrc_server_spec(b: u8) -> Option<Server> {
    if b == 0x44 {
        Some(Server::Dedicated)
    } else if b == 0x4c {
        Some(Server::NonDedicated)
    } else if b == 0x50 {
        Some(Server::TV)
    } else {
        None
    }
}

/// Environment in the obsolete GoldSrc layout: 'L', 'W'.
pub open spec fn goldsrc_environment_spec(b: u8) -> Option<Environment> {
    if b == 0x4c {
        Some(Environment::Linux)
    } else if b == 0x57 {
        Some(Environment::Windows)
    } else {
        None
    }
}

/// Server kind in the modern layout: 'd', 'l', 'p'.
pub open spec fn source_server_spec(b: u8) -> Option<Server> {
    if b == 0x64 {
        Some(Server::Dedicated)
    } else if b == 0x6c {
        Some(Server::NonDedicated)
    } else if b == 0x70 {
        Some(Server::TV)
    } else {
        None
    }
}

/// Environment in the modern layout: 'l', 'w'.
pub open spec fn source_environment_spec(b: u8) -> Option<Environment> {
    if b == 0x6c {
        Some(Environment::Linux)
    } else if b == 0x77 {
        Some(Environment::Windows)
    } else {
        None
    }
}

pub fn goldsrc_server(b: u8) -> (r: Result<Server, QueryError>)
    ensures
        match goldsrc_server_spec(b) {
            Some(s) => r == Ok::<Server, QueryError>(s),
            None => r == Err::<Server, QueryError>(QueryError::UnknownEnumCast),
        },
{
    match b {
        0x44 => Ok(Server::Dedicated),
        0x4c => Ok(Server::NonDedicated),
        0x50 => Ok(Server::TV),
        _ => Err(QueryError::UnknownEnumCast),
    }
}

pub fn goldsrc_environment(b: u8) -> (r: Result<Environment, QueryError>)
    ensures
        match goldsrc_environment_spec(b) {
            Some(s) => r == Ok::<Environment, QueryError>(s),
            None => r == Err::<Environment, QueryError>(QueryError::UnknownEnumCast),
        },
{
    match b {
        0x4c => Ok(Environment::Linux),
        0x57 => Ok(Environment::Windows),
        _ => Err(QueryError::UnknownEnumCast),
    }
}

pub fn source_server(b: u8) -> (r: Result<Server, QueryError>)
    ensures
        match source_server_spec(b) {
            Some(s) => r == Ok::<Server, QueryError>(s),
            None => r == Err::<Server, QueryError>(QueryError::UnknownEnumCast),
        },
{
    match b {
        0x64 => Ok(Server::Dedicated),
        0x6c => Ok(Server::NonDedicated),
        0x70 => Ok(Server::TV),
        _ => Err(QueryError::UnknownEnumCast),
    }
}

pub fn source_environment(b: u8) -> (r: Result<Environment, QueryError>)
    ensures
        match source_environment_spec(b) {
            Some(s) => r == Ok::<Environment, QueryError>(s),
            None => r == Err::<Environment, QueryError>(QueryError::UnknownEnumCast),
        },
{
    match b {
        0x6c => Ok(Environment::Linux),
        0x77 => Ok(Environment::Windows),
        _ => Err(QueryError::UnknownEnumCast),
    }
}

/// Mathematical value of a player record.
pub struct PlayerSpec {
    pub name: Seq<char>,
    pub score: i32,
    pub duration_bits: u32,
    pub deaths: Option<u32>,
    pub money: Option<u32>,
}

pub open spec fn player_view(p: ServerPlayer) -> PlayerSpec {
    PlayerSpec { name: p.name@, score: p.score, duration_bits: p.duration_bits, deaths: p.deaths, money: p.money }
}

/// Bytes that follow a player's name: score and duration, then deaths and
/// money for The Ship.
pub open spec fn player_tail_len(ship: bool) -> int {
    if ship { 16 } else { 8 }
}

/// The player record at `p` (index byte, name, score, duration, and the
/// fields of The Ship) and the position after it.
pub open spec fn player_at(s: Seq<u8>, p: int, ship: bool) -> Result<(PlayerSpec, int), QueryError> {
    if p + 1 > s.len() {
        Err(QueryError::PacketUnderflow)
    } else {
        match string_at(s, p + 1) {
            Err(e) => Err(e),
            Ok((name, q)) => if q + player_tail_len(ship) > s.len() {
                Err(QueryError::PacketUnderflow)
            } else {
                Ok((PlayerSpec {
                    name,
                    score: (le32(s, q) as u32) as i32,
                    duration_bits: le32(s, q + 4) as u32,
                    deaths: if ship { Some(le32(s, q + 8) as u32) } else { None },
                    money: if ship { Some(le32(s, q + 12) as u32) } else { None },
                }, q + player_tail_len(ship)))
            },
        }
    }
}

/// `n` player records from position `p` on.
pub open spec fn players_from(s: Seq<u8>, p: int, n: nat, ship: bool) -> Result<Seq<PlayerSpec>, QueryError>
    decreases n,
{
    if n == 0 {
        Ok(Seq::empty())
    } else {
        match player_at(s, p, ship) {
            Err(e) => Err(e),
            Ok((pl, q)) => match players_from(s, q, (n - 1) as nat, ship) {
                Err(e) => Err(e),
                Ok(rest) => Ok(seq![pl] + rest),
            },
        }
    }
}

pub open spec fn prepend_players(pfx: Seq<PlayerSpec>, r: Result<Seq<PlayerSpec>, QueryError>) -> Result<Seq<PlayerSpec>, QueryError> {
    match r {
        Ok(rest) => Ok(pfx + rest),
        Err(e) => Err(e),
    }
}

/// Decoding of a players response: a count byte, then that many records.
pub open spec fn players_spec(s: Seq<u8>, ship: bool) -> Result<Seq<PlayerSpec>, QueryError> {
    if s.len() == 0 {
        Err(QueryError::PacketUnderflow)
    } else {
        players_from(s, 1, s[0] as nat, ship)
    }
}

/// Decodes a players response.
#[verifier::loop_isolation(false)]
pub fn decode_players(engine: &Engine, data: Vec<u8>) -> (r: Result<Vec<ServerPlayer>, QueryError>)
    ensures
        match players_spec(data@, quirks_spec(*engine).the_ship_fields) {
            Ok(ps) => r matches Ok(v) && v@.map_values(|p: ServerPlayer| player_view(p)) == ps,
            Err(e) => r matches Err(x) && x == e,
        },
{
    let ghost bytes = data@;
    let ship = quirks_of(engine).the_ship_fields;
    let mut reader = Reader::new(data);
    let count = reader.read_u8()?;
    let mut players: Vec<ServerPlayer> = Vec::new();
    let mut k: u8 = 0;
    while k < count
        invariant
            reader.wf(),
            reader.data@ == bytes,
            bytes.len() >= 1,
            k <= count,
            count == bytes[0],
            ship == quirks_spec(*engine).the_ship_fields,
            players_spec(bytes, ship) == prepend_players(
                players@.map_values(|p: ServerPlayer| player_view(p)),
                players_from(bytes, reader.pos as int, (count - k) as nat, ship),
            ),
        decreases count - k,
    {
        let ghost pos0 = reader.pos as int;
        let ghost pre = players@.map_values(|p: ServerPlayer| player_view(p));
        reader.skip(1)?;
        let name = reader.read_string()?;
        let score = reader.read_i32()?;
        let duration_bits = reader.read_u32()?;
        let deaths = if ship { Some(reader.read_u32()?) } else { None };
        let money = if ship { Some(reader.read_u32()?) } else { None };
        let ghost pl = PlayerSpec { name: name@, score, duration_bits, deaths, money };
        assert(player_at(bytes, pos0, ship) == Ok::<(PlayerSpec, int), QueryError>((pl, reader.pos as int)));
        players.push(ServerPlayer { name, score, duration_bits, deaths, money });
        assert(players@.map_values(|p: ServerPlayer| player_view(p)) =~= pre.push(pl));
        assert(pre + (seq![pl] + Seq::<PlayerSpec>::empty()) =~= pre.push(pl));
        proof {
            match players_from(bytes, reader.pos as int, (count - k - 1) as nat, ship) {
                Ok(rest) => {
                    assert(pre + (seq![pl] + rest) =~= pre.push(pl) + rest);
                },
                Err(e) => {},
            }
        }
        k = k + 1;
    }
    assert(players@.map_values(|p: ServerPlayer| player_view(p)) + Seq::<PlayerSpec>::empty()
        =~= players@.map_values(|p: ServerPlayer| player_view(p)));
    Ok(players)
}

/// No two rules share a name.
pub open spec fn unique_names(v: Seq<(String, String)>) -> bool {
    forall|i: int, j: int| 0 <= i < v.len() && 0 <= j < v.len() && i != j ==> v[i].0@ != v[j].0@
}

/// Some rule has this name.
pub open spec fn has_rule(v: Seq<(String, String)>, name: Seq<char>) -> bool {
    exists|i: int| 0 <= i < v.len() && #[trigger] v[i].0@ == name
}

/// Sets the value of rule `name`, replacing an earlier value.
pub fn insert_rule(rules: &mut Vec<(String, String)>, name: String, value: String)
    requires
        unique_names(old(rules)@),
    ensures
        unique_names(final(rules)@),
        final(rules)@.len() <= old(rules)@.len() + 1,
        exists|i: int| 0 <= i < final(rules)@.len() && (#[trigger] final(rules)@[i]).0@ == name@
            && final(rules)@[i].1@ == value@,
        forall|i: int| 0 <= i < old(rules)@.len() && (#[trigger] old(rules)@[i]).0@ != name@
            ==> final(rules)@.contains(old(rules)@[i]),
        forall|i: int| 0 <= i < final(rules)@.len() && (#[trigger] final(rules)@[i]).0@ != name@
            ==> old(rules)@.contains(final(rules)@[i]),
{
    remove_rule(rules, &name);
    let ghost mid = rules@;
    rules.push((name, value));
    assert(rules@[mid.len() as int] == (name, value));
    assert forall|i: int| 0 <= i < old(rules)@.len() && (#[trigger] old(rules)@[i]).0@ != name@
        implies rules@.contains(old(rules)@[i]) by {
        assert(mid.contains(old(rules)@[i]));
        let j = choose|j: int| 0 <= j < mid.len() && mid[j] == old(rules)@[i];
        assert(rules@[j] == mid[j]);
    }
    assert forall|i: int| 0 <= i < rules@.len() && (#[trigger] rules@[i]).0@ != name@
        implies old(rules)@.contains(rules@[i]) by {
        assert(i < mid.len());
        assert(rules@[i] == mid[i]);
        assert(mid.contains(mid[i]));
    }
}

/// Removes rule `name` if present; removing an absent rule changes nothing.
#[verifier::loop_isolation(false)]
pub fn remove_rule(rules: &mut Vec<(String, String)>, name: &String)
    requires
        unique_names(old(rules)@),
    ensures
        unique_names(final(rules)@),
        final(rules)@.len() <= old(rules)@.len(),
        !has_rule(final(rules)@, name@),
        forall|i: int| 0 <= i < old(rules)@.len() && (#[trigger] old(rules)@[i]).0@ != name@
            ==> final(rules)@.contains(old(rules)@[i]),
        forall|i: int| 0 <= i < final(rules)@.len() ==> old(rules)@.contains(#[trigger] final(rules)@[i]),
        !has_rule(old(rules)@, name@) ==> final(rules)@ == old(rules)@,
{
    let mut i: usize = 0;
    while i < rules.len()
        invariant
            rules@ == old(rules)@,
            i <= rules@.len(),
            forall|j: int| 0 <= j < i ==> (#[trigger] rules@[j]).0@ != name@,
        decreases rules@.len() - i,
    {
        if rules[i].0 == *name {
            let ghost before = rules@;
            rules.remove(i);
            assert forall|j: int| 0 <= j < rules@.len() implies !((#[trigger] rules@[j]).0@ == name@) by {
                if j < i {
                    assert(rules@[j] == before[j]);
                } else {
                    assert(rules@[j] == before[j + 1]);
                    assert(before[i as int].0@ == name@);
                    assert(before[j + 1].0@ != before[i as int].0@);
                }
            }
            assert forall|a: int, b: int| 0 <= a < rules@.len() && 0 <= b < rules@.len() && a != b
                implies rules@[a].0@ != rules@[b].0@ by {
                let a2 = if a < i { a } else { a + 1 };
                let b2 = if b < i { b } else { b + 1 };
                assert(rules@[a] == before[a2]);
                assert(rules@[b] == before[b2]);
                assert(a2 != b2);
                assert(before[a2].0@ != before[b2].0@);
            }
            assert forall|k: int| 0 <= k < before.len() && (#[trigger] before[k]).0@ != name@
                implies rules@.contains(before[k]) by {
                if k < i {
                    assert(rules@[k] == before[k]);
                } else {
                    assert(k != i);
                    assert(rules@[k - 1] == before[k]);
                }
            }
            assert forall|k: int| 0 <= k < rules@.len() implies before.contains(#[trigger] rules@[k]) by {
                if k < i {
                    assert(rules@[k] == before[k]);
                } else {
                    assert(rules@[k] == before[k + 1]);
                }
            }
            return;
        }
        i = i + 1;
    }
    assert forall|k: int| 0 <= k < rules@.len() implies old(rules)@.contains(#[trigger] rules@[k]) by {
        assert(old(rules)@[k] == rules@[k]);
    }
    assert forall|k: int| 0 <= k < old(rules)@.len() && (#[trigger] old(rules)@[k]).0@ != name@
        implies rules@.contains(old(rules)@[k]) by {
        assert(old(rules)@[k] == rules@[k]);
    }
}

/// The name of the rule that Risk of Rain 2 servers report in error.
pub open spec fn bogus_rule_name() -> Seq<char> {
    seq!['T', 'e', 's', 't']
}

/// The rule strings of a rules response: a 16-bit count, then a name and
/// a value for each rule.
pub open spec fn rule_strings(s: Seq<u8>) -> Result<Seq<Seq<char>>, QueryError> {
    if s.len() < 2 {
        Err(QueryError::PacketUnderflow)
    } else {
        match strings_at(s, 2, (2 * le16(s, 0)) as nat) {
            Err(e) => Err(e),
            Ok((ts, _)) => Ok(ts),
        }
    }
}

/// Pair `j` is the last among the first `k` pairs of `ts` to carry its name.
pub open spec fn last_pair(ts: Seq<Seq<char>>, k: int, j: int) -> bool {
    0 <= j < k && forall|j2: int| j < j2 < k ==> #[trigger] ts[2 * j2] != ts[2 * j]
}

/// Every rule is the last pair of the first `k` with its name.
pub open spec fn rules_from_pairs(v: Seq<(String, String)>, ts: Seq<Seq<char>>, k: int) -> bool {
    forall|i: int| 0 <= i < v.len() ==> exists|j: int| #[trigger] last_pair(ts, k, j)
        && (#[trigger] v[i]).0@ == ts[2 * j] && v[i].1@ == ts[2 * j + 1]
}

/// Every name among the first `k` pairs has a rule, except a removed one.
pub open spec fn pairs_kept(v: Seq<(String, String)>, ts: Seq<Seq<char>>, k: int, removed: Option<Seq<char>>) -> bool {
    forall|j: int| 0 <= j < k && removed != Some(#[trigger] ts[2 * j]) ==> has_rule(v, ts[2 * j])
}

/// Decodes a rules response into rules with distinct names, each with the
/// value of the last pair that carries it, applying the rule filter of the
/// title that `engine` identifies.
#[verifier::loop_isolation(false)]
pub fn decode_rules(engine: &Engine, data: Vec<u8>) -> (r: Result<Vec<(String, String)>, QueryError>)
    ensures
        match rule_strings(data@) {
            Err(e) => r == Err::<Vec<(String, String)>, QueryError>(e),
            Ok(ts) => r matches Ok(v) && unique_names(v@) && rules_from_pairs(v@, ts, le16(data@, 0))
                && pairs_kept(v@, ts, le16(data@, 0),
                    if quirks_spec(*engine).drop_test_rule { Some(bogus_rule_name()) } else { None }),
        },
        quirks_spec(*engine).drop_test_rule ==> (r matches Ok(v) ==> !has_rule(v@, bogus_rule_name())),
{
    let ghost bytes = data@;
    let mut reader = Reader::new(data);
    let count = reader.read_u16()?;
    let ts = read_strings(&mut reader, 2 * count as usize)?;
    let ghost tv = Seq::new(ts@.len(), |i: int| ts@[i]@);
    proof {
        assert(bytes.len() >= 2);
        assert(count == le16(bytes, 0));
        if let Ok((tss, q)) = strings_at(bytes, 2, (2 * count) as nat) {
            assert(tv =~= tss);
        }
        assert(rule_strings(bytes) == Ok::<Seq<Seq<char>>, QueryError>(tv));
    }
    let mut rules: Vec<(String, String)> = Vec::new();
    let mut k: usize = 0;
    while k < count as usize
        invariant
            k <= count,
            ts@.len() == 2 * count,
            tv.len() == ts@.len(),
            forall|i: int| 0 <= i < ts@.len() ==> #[trigger] tv[i] == ts@[i]@,
            unique_names(rules@),
            rules_from_pairs(rules@, tv, k as int),
            pairs_kept(rules@, tv, k as int, None),
        decreases count - k,
    {
        let name = ts[2 * k].clone();
        let value = ts[2 * k + 1].clone();
        let ghost old_rules = rules@;
        insert_rule(&mut rules, name, value);
        proof {
            let kk = k as int;
            assert(tv[2 * kk] == name@);
            assert(tv[2 * kk + 1] == value@);
            assert forall|i: int| 0 <= i < rules@.len() implies exists|j: int| #[trigger] last_pair(tv, kk + 1, j)
                && (#[trigger] rules@[i]).0@ == tv[2 * j] && rules@[i].1@ == tv[2 * j + 1] by {
                if rules@[i].0@ == name@ {
                    let w = choose|w: int| 0 <= w < rules@.len() && (#[trigger] rules@[w]).0@ == name@
                        && rules@[w].1@ == value@;
                    if w != i {
                        assert(rules@[w].0@ != rules@[i].0@);
                    }
                    assert(last_pair(tv, kk + 1, kk));
                } else {
                    assert(old_rules.contains(rules@[i]));
                    let o = choose|o: int| 0 <= o < old_rules.len() && old_rules[o] == rules@[i];
                    let j = choose|j: int| #[trigger] last_pair(tv, kk, j)
                        && (#[trigger] old_rules[o]).0@ == tv[2 * j] && old_rules[o].1@ == tv[2 * j + 1];
                    assert(last_pair(tv, kk + 1, j));
                }
            }
            assert forall|j: int| 0 <= j < kk + 1 && None::<Seq<char>> != Some(#[trigger] tv[2 * j])
                implies has_rule(rules@, tv[2 * j]) by {
                if tv[2 * j] == name@ {
                    let w = choose|w: int| 0 <= w < rules@.len() && (#[trigger] rules@[w]).0@ == name@
                        && rules@[w].1@ == value@;
                    assert(rules@[w].0@ == tv[2 * j]);
                } else {
                    assert(j < kk);
                    assert(has_rule(old_rules, tv[2 * j]));
                    let o = choose|o: int| 0 <= o < old_rules.len() && #[trigger] old_rules[o].0@ == tv[2 * j];
                    assert(rules@.contains(old_rules[o]));
                    let i = choose|i: int| 0 <= i < rules@.len() && rules@[i] == old_rules[o];
                    assert(rules@[i].0@ == tv[2 * j]);
                }
            }
        }
        k = k + 1;
    }
    if quirks_of(engine).drop_test_rule {
        let key = "Test".to_owned();
        proof {
            reveal_strlit("Test");
        }
        assert(key@ =~= bogus_rule_name());
        let ghost before = rules@;
        remove_rule(&mut rules, &key);
        proof {
            assert forall|i: int| 0 <= i < rules@.len() implies exists|j: int| #[trigger] last_pair(tv, count as int, j)
                && (#[trigger] rules@[i]).0@ == tv[2 * j] && rules@[i].1@ == tv[2 * j + 1] by {
                assert(before.contains(rules@[i]));
                let o = choose|o: int| 0 <= o < before.len() && before[o] == rules@[i];
                let j = choose|j: int| #[trigger] last_pair(tv, count as int, j)
                    && (#[trigger] before[o]).0@ == tv[2 * j] && before[o].1@ == tv[2 * j + 1];
            }
            assert forall|j: int| 0 <= j < count && Some(bogus_rule_name()) != Some(#[trigger] tv[2 * j])
                implies has_rule(rules@, tv[2 * j]) by {
                assert(has_rule(before, tv[2 * j]));
                let o = choose|o: int| 0 <= o < before.len() && #[trigger] before[o].0@ == tv[2 * j];
                assert(rules@.contains(before[o]));
                let i = choose|i: int| 0 <= i < rules@.len() && rules@[i] == before[o];
                assert(rules@[i].0@ == tv[2 * j]);
            }
        }
    }
    Ok(rules)
}

} // verus!
