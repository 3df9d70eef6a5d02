use vstd::prelude::*;
use crate::cursor::{first_zero, le16, lemma_first_zero_bounds, lemma_string_at_advances, string_at};
use crate::decode::{player_at, players_from, players_spec, rule_strings, PlayerSpec};
use crate::info::{
    extra_spec, goldsrc_info_spec, mod_spec, opt_string_at, opt_u16_at, opt_u64_at, source_info_spec, strings_at,
    ExtraSpec, InfoSpec,
};
use crate::types::{quirks_spec, Engine};
use crate::types::QueryError;

verus! {

proof fn lemma_first_zero_prefix(s: Seq<u8>, n: int, p: int)
    requires
        0 <= p,
        0 <= n <= s.len(),
    ensures
        first_zero(s, p) < n ==> first_zero(s.take(n), p) == first_zero(s, p),
        first_zero(s, p) >= n ==> first_zero(s.take(n), p) >= n,
    decreases s.len() - p,
{
    if p < s.len() && s[p] != 0 {
        lemma_first_zero_prefix(s, n, p + 1);
    }
}

/// A string read from a prefix of `s` gives the same string when its
/// terminator lies in the prefix, and a bounds error otherwise.
pub proof fn lemma_string_at_prefix(s: Seq<u8>, n: int, p: int)
    requires
        0 <= p,
        0 <= n <= s.len(),
        string_at(s, p) is Ok,
    ensures
        string_at(s, p) matches Ok((t, q)) && q <= n ==> string_at(s.take(n), p) == string_at(s, p),
        string_at(s, p) matches Ok((t, q)) && q > n ==> string_at(s.take(n), p)
            == Err::<(Seq<char>, int), QueryError>(QueryError::PacketUnderflow),
{
    lemma_first_zero_prefix(s, n, p);
    let z = first_zero(s, p);
    if p >= s.len() {
        assert(z == s.len());
    }
    lemma_first_zero_bounds(s, p);
    if z < n {
        assert(s.take(n).subrange(p, z) =~= s.subrange(p, z));
    }
}

/// The position after `k` strings read from `p`.
pub proof fn lemma_strings_at_prefix(s: Seq<u8>, n: int, p: int, k: nat)
    requires
        0 <= p <= n <= s.len(),
        strings_at(s, p, k) is Ok,
    ensures
        strings_at(s, p, k) matches Ok((ts, q)) && q <= n ==> strings_at(s.take(n), p, k) == strings_at(s, p, k),
        strings_at(s, p, k) matches Ok((ts, q)) && q > n ==> strings_at(s.take(n), p, k)
            == Err::<(Seq<Seq<char>>, int), QueryError>(QueryError::PacketUnderflow),
    decreases k,
{
    if k > 0 {
        lemma_string_at_prefix(s, n, p);
        if let Ok((t, q1)) = string_at(s, p) {
            lemma_string_at_advances(s, p);
            lemma_strings_at_end(s, q1, (k - 1) as nat);
            if q1 > n {
                assert(string_at(s.take(n), p) == Err::<(Seq<char>, int), QueryError>(QueryError::PacketUnderflow));
            } else {
                assert(string_at(s.take(n), p) == string_at(s, p));
                lemma_strings_at_prefix(s, n, q1, (k - 1) as nat);
            }
        }
    }
}

/// Reading strings moves forward and stays within the payload.
pub proof fn lemma_strings_at_end(s: Seq<u8>, p: int, k: nat)
    requires
        0 <= p <= s.len(),
    ensures
        strings_at(s, p, k) matches Ok((ts, q)) ==> p <= q <= s.len(),
    decreases k,
{
    if k > 0 {
        if let Ok((t, q1)) = string_at(s, p) {
            lemma_string_at_advances(s, p);
            lemma_strings_at_end(s, q1, (k - 1) as nat);
        }
    }
}

/// A rules response cut short of the bytes its rules occupy is rejected
/// with a bounds error.
pub proof fn lemma_truncated_rules_underflow(s: Seq<u8>, n: int)
    requires
        s.len() >= 2,
        strings_at(s, 2, (2 * le16(s, 0)) as nat) matches Ok((ts, q)) && 0 <= n < q,
    ensures
        rule_strings(s.take(n)) == Err::<Seq<Seq<char>>, QueryError>(QueryError::PacketUnderflow),
{
    lemma_strings_at_end(s, 2, (2 * le16(s, 0)) as nat);
    if n >= 2 {
        assert(s.take(n)[0] == s[0] && s.take(n)[1] == s[1]);
        assert(le16(s.take(n), 0) == le16(s, 0));
        lemma_strings_at_prefix(s, n, 2, (2 * le16(s, 0)) as nat);
    }
}

/// The position after `k` player records read from `p`.
pub open spec fn players_end(s: Seq<u8>, p: int, k: nat, ship: bool) -> int
    decreases k,
{
    if k == 0 {
        p
    } else {
        match player_at(s, p, ship) {
            Err(_) => p,
            Ok((_, q)) => players_end(s, q, (k - 1) as nat, ship),
        }
    }
}

proof fn lemma_player_at_prefix(s: Seq<u8>, n: int, p: int, ship: bool)
    requires
        0 <= p <= n <= s.len(),
        player_at(s, p, ship) is Ok,
    ensures
        player_at(s, p, ship) matches Ok((pl, q)) && q <= n ==> player_at(s.take(n), p, ship) == player_at(s, p, ship),
        player_at(s, p, ship) matches Ok((pl, q)) && q > n ==> player_at(s.take(n), p, ship)
            == Err::<(PlayerSpec, int), QueryError>(QueryError::PacketUnderflow),
        player_at(s, p, ship) matches Ok((pl, q)) ==> p < q <= s.len(),
{
    lemma_string_at_advances(s, p + 1);
    if p + 1 <= n {
        lemma_string_at_prefix(s, n, p + 1);
        if let Ok((name, q0)) = string_at(s, p + 1) {
            if q0 <= n {
                let t = s.take(n);
                assert(forall|i: int| 0 <= i < n ==> t[i] == s[i]);
            }
        }
    }
}

proof fn lemma_players_from_prefix(s: Seq<u8>, n: int, p: int, k: nat, ship: bool)
    requires
        0 <= p <= n <= s.len(),
        players_from(s, p, k, ship) is Ok,
    ensures
        players_end(s, p, k, ship) <= n ==> players_from(s.take(n), p, k, ship) == players_from(s, p, k, ship),
        players_end(s, p, k, ship) > n ==> players_from(s.take(n), p, k, ship)
            == Err::<Seq<PlayerSpec>, QueryError>(QueryError::PacketUnderflow),
    decreases k,
{
    if k > 0 {
        lemma_player_at_prefix(s, n, p, ship);
        if let Ok((pl, q)) = player_at(s, p, ship) {
            lemma_players_end_bounds(s, q, (k - 1) as nat, ship);
            if q <= n {
                lemma_players_from_prefix(s, n, q, (k - 1) as nat, ship);
            }
        }
    }
}

proof fn lemma_players_end_bounds(s: Seq<u8>, p: int, k: nat, ship: bool)
    requires
        0 <= p <= s.len(),
        players_from(s, p, k, ship) is Ok,
    ensures
        p <= players_end(s, p, k, ship) <= s.len(),
    decreases k,
{
    if k > 0 {
        lemma_player_at_prefix(s, s.len() as int, p, ship);
        if let Ok((pl, q)) = player_at(s, p, ship) {
            lemma_players_end_bounds(s, q, (k - 1) as nat, ship);
        }
    }
}

/// A players response cut short of the bytes its records occupy is
/// rejected with a bounds error.
pub proof fn lemma_truncated_players_underflow(s: Seq<u8>, ship: bool, n: int)
    requires
        players_spec(s, ship) is Ok,
        0 <= n < players_end(s, 1, s[0] as nat, ship),
    ensures
        players_spec(s.take(n), ship) == Err::<Seq<PlayerSpec>, QueryError>(QueryError::PacketUnderflow),
{
    lemma_players_end_bounds(s, 1, s[0] as nat, ship);
    if n >= 1 {
        assert(s.take(n)[0] == s[0]);
        lemma_players_from_prefix(s, n, 1, s[0] as nat, ship);
    }
}

/// The position after an info response in the obsolete GoldSrc layout.
pub open spec fn goldsrc_info_end(s: Seq<u8>) -> int {
    match strings_at(s, 1, 5) {
        Err(_) => 0,
        Ok((t, q)) => match mod_spec(s, q + 7, s[q + 6] == 1) {
            Err(_) => 0,
            Ok((_, p)) => p + 2,
        },
    }
}

/// An info response in the obsolete GoldSrc layout cut short of the bytes
/// it occupies is rejected with a bounds error.
pub proof fn lemma_truncated_goldsrc_info_underflow(s: Seq<u8>, n: int)
    requires
        goldsrc_info_spec(s) is Ok,
        0 <= n < goldsrc_info_end(s),
    ensures
        goldsrc_info_spec(s.take(n)) == Err::<InfoSpec, QueryError>(QueryError::PacketUnderflow),
{
    let t = s.take(n);
    if n >= 1 {
        lemma_strings_at_end(s, 1, 5);
        lemma_strings_at_prefix(s, n, 1, 5);
        if let Ok((ts, q)) = strings_at(s, 1, 5) {
            if q + 7 <= n {
                assert(t[q + 3] == s[q + 3] && t[q + 4] == s[q + 4] && t[q + 6] == s[q + 6]);
                if s[q + 6] == 1 {
                    lemma_strings_at_end(s, q + 7, 2);
                    lemma_strings_at_prefix(s, n, q + 7, 2);
                }
            }
        }
    }
}

proof fn lemma_opt_string_prefix(s: Seq<u8>, n: int, p: int, present: bool)
    requires
        0 <= p <= n <= s.len(),
        opt_string_at(s, p, present) is Ok,
    ensures
        opt_string_at(s, p, present) matches Ok((x, q)) && q <= n ==> opt_string_at(s.take(n), p, present) == opt_string_at(s, p, present),
        opt_string_at(s, p, present) matches Ok((x, q)) && q > n ==> opt_string_at(s.take(n), p, present)
            == Err::<(Option<Seq<char>>, int), QueryError>(QueryError::PacketUnderflow),
        opt_string_at(s, p, present) matches Ok((x, q)) ==> p <= q <= s.len(),
{
    if present {
        lemma_string_at_prefix(s, n, p);
        lemma_string_at_advances(s, p);
    }
}

proof fn lemma_extra_prefix(s: Seq<u8>, n: int, p: int, flags: u8)
    requires
        0 <= p <= n <= s.len(),
        extra_spec(s, p, flags) is Ok,
    ensures
        extra_spec(s, p, flags) matches Ok((e, q)) && q <= n ==> extra_spec(s.take(n), p, flags) == extra_spec(s, p, flags),
        extra_spec(s, p, flags) matches Ok((e, q)) && q > n ==> extra_spec(s.take(n), p, flags)
            == Err::<(ExtraSpec, int), QueryError>(QueryError::PacketUnderflow),
{
    let t = s.take(n);
    assert(forall|i: int| 0 <= i < n ==> t[i] == s[i]);
    if let Ok((port, p1)) = opt_u16_at(s, p, flags & 0x80 != 0) {
        if let Ok((steam_id, p2)) = opt_u64_at(s, p1, flags & 0x10 != 0) {
            if let Ok((tv_port, p3)) = opt_u16_at(s, p2, flags & 0x40 != 0) {
                lemma_string_at_advances(s, p3);
                if p3 <= n {
                    lemma_opt_string_prefix(s, n, p3, flags & 0x40 != 0);
                }
                if let Ok((tv_name, p4)) = opt_string_at(s, p3, flags & 0x40 != 0) {
                    lemma_string_at_advances(s, p4);
                    if p4 <= n {
                        lemma_opt_string_prefix(s, n, p4, flags & 0x20 != 0);
                    }
                    if let Ok((keywords, p5)) = opt_string_at(s, p4, flags & 0x20 != 0) {
                        if let Ok((game_id, p6)) = opt_u64_at(s, p5, flags & 0x01 != 0) {
                            if p6 <= n {
                                assert(opt_u16_at(t, p, flags & 0x80 != 0) == opt_u16_at(s, p, flags & 0x80 != 0));
                                assert(opt_u64_at(t, p1, flags & 0x10 != 0) == opt_u64_at(s, p1, flags & 0x10 != 0));
                                assert(opt_u16_at(t, p2, flags & 0x40 != 0) == opt_u16_at(s, p2, flags & 0x40 != 0));
                                assert(opt_u64_at(t, p5, flags & 0x01 != 0) == opt_u64_at(s, p5, flags & 0x01 != 0));
                            }
                        }
                    }
                }
            }
        }
    }
}

/// The position after the game version of an info response in the modern layout.
pub open spec fn game_version_end(engine: Engine, s: Seq<u8>) -> int {
    match strings_at(s, 1, 4) {
        Err(_) => 0,
        Ok((t, q)) => match string_at(s, if quirks_spec(engine).the_ship_fields { q + 12 } else { q + 9 }) {
            Err(_) => 0,
            Ok((_, pe)) => pe,
        },
    }
}

/// The position after an info response in the modern layout.
pub open spec fn source_info_end(engine: Engine, s: Seq<u8>) -> int {
    let pe = game_version_end(engine, s);
    if pe >= s.len() {
        pe
    } else {
        match extra_spec(s, pe + 1, s[pe]) {
            Err(_) => 0,
            Ok((_, pz)) => pz,
        }
    }
}

/// An info response in the modern layout cut short of the bytes it occupies
/// is rejected with a bounds error, except when the cut falls right after
/// the game version, where the optional extra data block may end a response.
pub proof fn lemma_truncated_source_info_underflow(engine: Engine, s: Seq<u8>, n: int)
    requires
        source_info_spec(engine, s) is Ok,
        0 <= n < source_info_end(engine, s),
        n != game_version_end(engine, s),
    ensures
        source_info_spec(engine, s.take(n)) == Err::<InfoSpec, QueryError>(QueryError::PacketUnderflow),
{
    let t = s.take(n);
    assert(forall|i: int| 0 <= i < n ==> t[i] == s[i]);
    if n >= 1 {
        lemma_strings_at_end(s, 1, 4);
        lemma_strings_at_prefix(s, n, 1, 4);
        if let Ok((ts, q)) = strings_at(s, 1, 4) {
            let pv = if quirks_spec(engine).the_ship_fields { q + 12 } else { q + 9 };
            if pv <= n {
                lemma_string_at_prefix(s, n, pv);
                lemma_string_at_advances(s, pv);
                if let Ok((gv, pe)) = string_at(s, pv) {
                    if pe < n {
                        lemma_extra_prefix(s, n, pe + 1, s[pe]);
                    }
                }
            }
        }
    }
}

/// An error that a read past the payload or a malformed string gives.
pub open spec fn is_bounds_error(e: QueryError) -> bool {
    e == QueryError::PacketUnderflow || e == QueryError::PacketBad
}

proof fn lemma_strings_at_facts(s: Seq<u8>, p: int, k: nat)
    requires
        0 <= p <= s.len(),
    ensures
        strings_at(s, p, k) matches Err(e) ==> is_bounds_error(e),
        strings_at(s, p, k) matches Ok((ts, q)) ==> p + k <= q <= s.len(),
    decreases k,
{
    if k > 0 {
        lemma_string_at_advances(s, p);
        if let Ok((t, q1)) = string_at(s, p) {
            lemma_strings_at_facts(s, q1, (k - 1) as nat);
        }
    }
}

proof fn lemma_players_from_facts(s: Seq<u8>, p: int, n: nat, ship: bool)
    requires
        0 <= p <= s.len(),
    ensures
        players_from(s, p, n, ship) matches Err(e) ==> is_bounds_error(e),
        players_from(s, p, n, ship) is Ok ==> p + 10 * n <= s.len(),
    decreases n,
{
    if n > 0 {
        if p + 1 <= s.len() {
            lemma_string_at_advances(s, p + 1);
            if let Ok((pl, q)) = player_at(s, p, ship) {
                lemma_players_from_facts(s, q, (n - 1) as nat, ship);
            }
        }
    }
}

/// A players response too short for the records its count announces (each
/// takes at least ten bytes) is rejected, and every rejection of a players
/// response is a bounds error or a malformed string.
pub proof fn lemma_short_players_rejected(s: Seq<u8>, ship: bool)
    ensures
        players_spec(s, ship) matches Err(e) ==> is_bounds_error(e),
        s.len() == 0 || s.len() < 1 + 10 * s[0] ==> players_spec(s, ship) is Err,
{
    if s.len() > 0 {
        lemma_players_from_facts(s, 1, s[0] as nat, ship);
    }
}

/// A rules response too short for the name and value strings its count
/// announces (each takes at least its terminator) is rejected, and every
/// rejection of a rules response is a bounds error or a malformed string.
pub proof fn lemma_short_rules_rejected(s: Seq<u8>)
    ensures
        rule_strings(s) matches Err(e) ==> is_bounds_error(e),
        s.len() < 2 || s.len() < 2 + 2 * le16(s, 0) ==> rule_strings(s) is Err,
{
    if s.len() >= 2 {
        lemma_strings_at_facts(s, 2, (2 * le16(s, 0)) as nat);
    }
}

} // verus!
