use vstd::prelude::*;
use crate::compress::{get_payload, payload_spec};
use crate::cursor::le16;
use crate::decode::{
    bogus_rule_name, decode_players, decode_rules, has_rule, pairs_kept, player_view, players_spec, rule_strings,
    rules_from_pairs, unique_names,
};
use crate::info::{decode_info, info_spec, info_view, InfoSpec};
use crate::decode::PlayerSpec;
use crate::packet::{assembled, fragments_view, packet_bytes, reassemble, split_spec, FragmentSpec, Packet, SplitPacket, SPLIT_MARKER};
use crate::link::{datagram_view, Link, Transport};
use crate::types::{
    default_payload_spec, quirks_spec, request_kind_spec, PLAYERS_KIND, RULES_KIND, info_probe, Engine, GatheringSettings, QueryError, Request, Response, ServerInfo, ServerPlayer,
    CHALLENGE_KIND, INFO_KIND,
};

verus! {

/// Largest datagram the client accepts.
pub const PACKET_SIZE: usize = 6144;

/// The request that answers a challenge: the info probe followed by the
/// token for an info request, the token alone otherwise.
pub open spec fn challenge_payload_spec(kind: u8, token: Seq<u8>) -> Seq<u8> {
    if kind == INFO_KIND {
        info_probe() + token
    } else {
        token
    }
}

pub fn challenge_payload(kind: u8, token: Vec<u8>) -> (r: Vec<u8>)
    ensures
        r@ == challenge_payload_spec(kind, token@),
{
    if kind == INFO_KIND {
        let mut out = Request::Info.get_default_payload();
        let mut t = token;
        out.append(&mut t);
        out
    } else {
        token
    }
}

/// What the client sends after receiving `response` to a request of `kind`:
/// the answer to a challenge, or nothing when the response is final.
pub open spec fn challenge_reply_spec(kind: u8, response_kind: u8, response: Seq<u8>) -> Option<Seq<u8>> {
    if response_kind == CHALLENGE_KIND {
        Some(packet_bytes(kind, challenge_payload_spec(kind, response)))
    } else {
        None
    }
}

pub fn challenge_reply(kind: u8, response: &Packet) -> (r: Option<Vec<u8>>)
    ensures
        match challenge_reply_spec(kind, response.kind, response.payload@) {
            Some(b) => r matches Some(v) && v@ == b,
            None => r is None,
        },
{
    if response.kind == CHALLENGE_KIND {
        let token = response.payload.clone();
        Some(Packet::new(kind, challenge_payload(kind, token)).to_bytes())
    } else {
        None
    }
}

/// Whether a failed attempt is tried again: only after a timeout, and only
/// while retries are left.
pub open spec fn retries_after(e: QueryError, left: usize) -> bool {
    e == QueryError::Timeout && left > 0
}

pub fn should_retry(e: QueryError, left: usize) -> (r: bool)
    ensures
        r == retries_after(e, left),
{
    e == QueryError::Timeout && left > 0
}

/// The index and payload of each fragment.
pub open spec fn fragment_pairs(f: Seq<FragmentSpec>) -> Seq<(u8, Seq<u8>)> {
    f.map_values(|x: FragmentSpec| (x.number, x.payload))
}

/// The packet that fragments make: their payloads in order of index,
/// decompressed as the first fragment to arrive declares.
pub open spec fn fragments_packet_spec(first: FragmentSpec, rest: Seq<FragmentSpec>) -> Result<(u8, Seq<u8>), QueryError> {
    match payload_spec(assembled(fragment_pairs(seq![first] + rest)), first.decompressed) {
        Err(e) => Err(e),
        Ok(p) => if p.len() < 5 {
            Err(QueryError::PacketUnderflow)
        } else {
            Ok((p[4], p.subrange(5, p.len() as int)))
        },
    }
}

pub open spec fn packet_view(r: Result<Packet, QueryError>) -> Result<(u8, Seq<u8>), QueryError> {
    match r {
        Ok(p) => Ok((p.kind, p.payload@)),
        Err(e) => Err(e),
    }
}

/// Reassembles the fragments of a split response into one packet.
pub fn assemble_fragments(first: SplitPacket, rest: Vec<SplitPacket>) -> (r: Result<Packet, QueryError>)
    ensures
        packet_view(r) == fragments_packet_spec(first@, rest@.map_values(|p: SplitPacket| p@)),
{
    let declared = first.decompressed;
    let ghost all = seq![first] + rest@;
    let ghost views = seq![first@] + rest@.map_values(|p: SplitPacket| p@);
    let mut fragments: Vec<SplitPacket> = vec![first];
    let mut rest = rest;
    fragments.append(&mut rest);
    assert(fragments@ =~= all);
    assert(fragments_view(fragments@) =~= fragment_pairs(views));
    let bytes = reassemble(&fragments);
    let payload = get_payload(&bytes, declared)?;
    Packet::from_bytes(payload)
}

/// A datagram that starts with the split marker.
pub open spec fn is_split(d: Seq<u8>) -> bool {
    d.len() > 0 && d[0] == SPLIT_MARKER
}

/// A datagram that carries a whole packet.
pub open spec fn single_packet_spec(d: Seq<u8>) -> Result<(u8, Seq<u8>), QueryError> {
    if d.len() < 5 {
        Err(QueryError::PacketUnderflow)
    } else {
        Ok((d[4], d.subrange(5, d.len() as int)))
    }
}

/// The fragment that one receive gave, or why there is none.
pub open spec fn datagram_fragment(engine: Engine, protocol: u8, x: Result<Seq<u8>, QueryError>) -> Result<FragmentSpec, QueryError> {
    match x {
        Err(e) => Err(e),
        Ok(d) => split_spec(engine, protocol, d),
    }
}

/// The packet made from a first fragment and the outcomes of the receives
/// that followed it, when those are exactly the receives the client makes:
/// one per missing fragment, stopping at the first failure.
pub open spec fn fragments_result(engine: Engine, protocol: u8, first: FragmentSpec, rest: Seq<Result<Seq<u8>, QueryError>>) -> Option<Result<(u8, Seq<u8>), QueryError>> {
    let m = rest.len() as int;
    if m + 1 > first.total {
        None
    } else if !(forall|i: int| 0 <= i < m - 1 ==> (#[trigger] datagram_fragment(engine, protocol, rest[i])) is Ok) {
        None
    } else if m > 0 && datagram_fragment(engine, protocol, rest[m - 1]) is Err {
        Some(Err(datagram_fragment(engine, protocol, rest[m - 1])->Err_0))
    } else if m + 1 == first.total {
        Some(fragments_packet_spec(first, Seq::new(m as nat, |i: int| datagram_fragment(engine, protocol, rest[i])->Ok_0)))
    } else {
        None
    }
}

/// The packet that `receive` returns when the outcomes of its receives are
/// `ds`, or nothing when `receive` would not make exactly those receives.
#[verifier::opaque]
pub open spec fn receive_result(engine: Engine, protocol: u8, ds: Seq<Result<Seq<u8>, QueryError>>) -> Option<Result<(u8, Seq<u8>), QueryError>> {
    if ds.len() == 0 {
        None
    } else {
        match ds[0] {
            Err(e) => if ds.len() == 1 { Some(Err(e)) } else { None },
            Ok(d) => if is_split(d) {
                match split_spec(engine, protocol, d) {
                    Err(e) => if ds.len() == 1 { Some(Err(e)) } else { None },
                    Ok(f) => fragments_result(engine, protocol, f, ds.drop_first()),
                }
            } else if ds.len() == 1 {
                Some(single_packet_spec(d))
            } else {
                None
            },
        }
    }
}

/// `ds` splits into consecutive runs of receives, run `i` making packet `ps[i]`.
pub open spec fn received_packets(engine: Engine, protocol: u8, ds: Seq<Result<Seq<u8>, QueryError>>, ps: Seq<Result<(u8, Seq<u8>), QueryError>>) -> bool
    decreases ps.len(),
{
    if ps.len() == 0 {
        ds.len() == 0
    } else {
        exists|j: int| 0 < j <= ds.len() && receive_result(engine, protocol, #[trigger] ds.take(j)) == Some(ps[0])
            && received_packets(engine, protocol, ds.skip(j), ps.drop_first())
    }
}

proof fn lemma_received_packets_push(engine: Engine, protocol: u8, ds1: Seq<Result<Seq<u8>, QueryError>>, ps1: Seq<Result<(u8, Seq<u8>), QueryError>>, ds2: Seq<Result<Seq<u8>, QueryError>>, p: Result<(u8, Seq<u8>), QueryError>)
    requires
        received_packets(engine, protocol, ds1, ps1),
        receive_result(engine, protocol, ds2) == Some(p),
    ensures
        received_packets(engine, protocol, ds1 + ds2, ps1.push(p)),
    decreases ps1.len(),
{
    if ps1.len() == 0 {
        assert((ds1 + ds2).take(ds2.len() as int) =~= ds2);
        assert((ds1 + ds2).skip(ds2.len() as int) =~= Seq::<Result<Seq<u8>, QueryError>>::empty());
        assert(ps1.push(p).drop_first() =~= Seq::<Result<(u8, Seq<u8>), QueryError>>::empty());
        assert(ds1 + ds2 =~= ds2);
        reveal(receive_result);
        assert(ds2.len() > 0);
        let j = ds2.len() as int;
        assert(receive_result(engine, protocol, (ds1 + ds2).take(j)) == Some(ps1.push(p)[0]));
        assert(received_packets(engine, protocol, (ds1 + ds2).skip(j), ps1.push(p).drop_first()));
    } else {
        let j = choose|j: int| 0 < j <= ds1.len() && receive_result(engine, protocol, #[trigger] ds1.take(j)) == Some(ps1[0])
            && received_packets(engine, protocol, ds1.skip(j), ps1.drop_first());
        lemma_received_packets_push(engine, protocol, ds1.skip(j), ps1.drop_first(), ds2, p);
        assert((ds1 + ds2).take(j) =~= ds1.take(j));
        assert((ds1 + ds2).skip(j) =~= ds1.skip(j) + ds2);
        assert(ps1.push(p).drop_first() =~= ps1.drop_first().push(p));
        assert(ps1.push(p)[0] == ps1[0]);
        assert(receive_result(engine, protocol, (ds1 + ds2).take(j)) == Some(ps1.push(p)[0]));
        assert(received_packets(engine, protocol, (ds1 + ds2).skip(j), ps1.push(p).drop_first()));
    }
}

/// A challenge packet.
pub open spec fn is_challenge(p: Result<(u8, Seq<u8>), QueryError>) -> bool {
    p matches Ok((k, _)) && k == CHALLENGE_KIND
}

/// The datagram that answers packet `p` to a request of `kind`.
pub open spec fn reply_bytes(kind: u8, p: Result<(u8, Seq<u8>), QueryError>) -> Seq<u8> {
    packet_bytes(kind, challenge_payload_spec(kind, p->Ok_0.1))
}

/// How an attempt ends on its last packet `p`, the `n`th it received.
pub open spec fn attempt_end(p: Result<(u8, Seq<u8>), QueryError>, n: int, r: Result<Seq<u8>, QueryError>) -> bool {
    match p {
        Err(e) => r == Err::<Seq<u8>, QueryError>(e),
        Ok((k, b)) => if k != CHALLENGE_KIND {
            r == Ok::<Seq<u8>, QueryError>(b)
        } else {
            n > usize::MAX && r == Err::<Seq<u8>, QueryError>(QueryError::Timeout)
        },
    }
}

/// One attempt of a request of `kind`: it sends the request, then answers
/// each challenge among the packets `ps` it receives, and ends with `r` on
/// the first failed send, the first failed receive or the first packet that
/// is no challenge.
#[verifier::opaque]
pub open spec fn attempt_spec(kind: u8, payload: Seq<u8>, ss: Seq<(Seq<u8>, Result<(), QueryError>)>, ps: Seq<Result<(u8, Seq<u8>), QueryError>>, r: Result<Seq<u8>, QueryError>) -> bool {
    &&& attempt_progress(kind, payload, ss, ps)
    &&& ((ss.len() == ps.len() + 1 && ss.last().1 is Err && r == Err::<Seq<u8>, QueryError>(ss.last().1->Err_0))
        || (ss.len() == ps.len() && ss.last().1 is Ok && attempt_end(ps.last(), ps.len() as int, r)))
}

/// The sends and receives of an attempt so far: the request first, then
/// the answer to each challenge received, every packet before the last a
/// challenge and every send before the last a success.
pub open spec fn attempt_progress(kind: u8, payload: Seq<u8>, ss: Seq<(Seq<u8>, Result<(), QueryError>)>, ps: Seq<Result<(u8, Seq<u8>), QueryError>>) -> bool {
    &&& ss.len() >= 1
    &&& ss[0].0 == packet_bytes(kind, payload)
    &&& forall|i: int| 0 <= i < ps.len() - 1 ==> is_challenge(#[trigger] ps[i])
    &&& forall|i: int| 0 <= i < ss.len() - 1 ==> (#[trigger] ss[i]).1 is Ok
    &&& forall|i: int| 1 <= i < ss.len() ==> (#[trigger] ss[i]).0 == reply_bytes(kind, ps[i - 1])
}
/// `ss` and `ds` split into consecutive attempts, attempt `i` ending with `atts[i]`.
pub open spec fn attempts_spec(engine: Engine, protocol: u8, kind: u8, payload: Seq<u8>, ss: Seq<(Seq<u8>, Result<(), QueryError>)>, ds: Seq<Result<Seq<u8>, QueryError>>, atts: Seq<Result<Seq<u8>, QueryError>>) -> bool
    decreases atts.len(),
{
    if atts.len() == 0 {
        ss.len() == 0 && ds.len() == 0
    } else {
        exists|i: int, j: int, ps: Seq<Result<(u8, Seq<u8>), QueryError>>|
            0 <= i <= ss.len() && 0 <= j <= ds.len()
            && #[trigger] received_packets(engine, protocol, ds.take(j), ps)
            && #[trigger] attempt_spec(kind, payload, ss.take(i), ps, atts[0])
            && attempts_spec(engine, protocol, kind, payload, ss.skip(i), ds.skip(j), atts.drop_first())
    }
}

proof fn lemma_attempts_push(engine: Engine, protocol: u8, kind: u8, payload: Seq<u8>, ss1: Seq<(Seq<u8>, Result<(), QueryError>)>, ds1: Seq<Result<Seq<u8>, QueryError>>, atts: Seq<Result<Seq<u8>, QueryError>>, ss2: Seq<(Seq<u8>, Result<(), QueryError>)>, ds2: Seq<Result<Seq<u8>, QueryError>>, ps: Seq<Result<(u8, Seq<u8>), QueryError>>, a: Result<Seq<u8>, QueryError>)
    requires
        attempts_spec(engine, protocol, kind, payload, ss1, ds1, atts),
        received_packets(engine, protocol, ds2, ps),
        attempt_spec(kind, payload, ss2, ps, a),
    ensures
        attempts_spec(engine, protocol, kind, payload, ss1 + ss2, ds1 + ds2, atts.push(a)),
    decreases atts.len(),
{
    if atts.len() == 0 {
        assert((ss1 + ss2).take(ss2.len() as int) =~= ss2);
        assert((ds1 + ds2).take(ds2.len() as int) =~= ds2);
        assert((ss1 + ss2).skip(ss2.len() as int) =~= Seq::<(Seq<u8>, Result<(), QueryError>)>::empty());
        assert((ds1 + ds2).skip(ds2.len() as int) =~= Seq::<Result<Seq<u8>, QueryError>>::empty());
        assert(atts.push(a).drop_first() =~= Seq::<Result<Seq<u8>, QueryError>>::empty());
        assert(atts.push(a)[0] == a);
        assert(ss1 + ss2 =~= ss2);
        assert(ds1 + ds2 =~= ds2);
        let i = ss2.len() as int;
        let j = ds2.len() as int;
        assert(received_packets(engine, protocol, (ds1 + ds2).take(j), ps));
        assert(attempt_spec(kind, payload, (ss1 + ss2).take(i), ps, atts.push(a)[0]));
        assert(attempts_spec(engine, protocol, kind, payload, (ss1 + ss2).skip(i), (ds1 + ds2).skip(j), atts.push(a).drop_first()));
    } else {
        let (i, j, ps1) = choose|i: int, j: int, ps1: Seq<Result<(u8, Seq<u8>), QueryError>>|
            0 <= i <= ss1.len() && 0 <= j <= ds1.len()
            && #[trigger] received_packets(engine, protocol, ds1.take(j), ps1)
            && #[trigger] attempt_spec(kind, payload, ss1.take(i), ps1, atts[0])
            && attempts_spec(engine, protocol, kind, payload, ss1.skip(i), ds1.skip(j), atts.drop_first());
        lemma_attempts_push(engine, protocol, kind, payload, ss1.skip(i), ds1.skip(j), atts.drop_first(), ss2, ds2, ps, a);
        assert((ss1 + ss2).take(i) =~= ss1.take(i));
        assert((ds1 + ds2).take(j) =~= ds1.take(j));
        assert((ss1 + ss2).skip(i) =~= ss1.skip(i) + ss2);
        assert((ds1 + ds2).skip(j) =~= ds1.skip(j) + ds2);
        assert(atts.push(a).drop_first() =~= atts.drop_first().push(a));
        assert(atts.push(a)[0] == atts[0]);
        assert(received_packets(engine, protocol, (ds1 + ds2).take(j), ps1));
        assert(attempt_spec(kind, payload, (ss1 + ss2).take(i), ps1, atts.push(a)[0]));
        assert(attempts_spec(engine, protocol, kind, payload, (ss1 + ss2).skip(i), (ds1 + ds2).skip(j), atts.push(a).drop_first()));
    }
}

/// The retry policy: attempts up to one more than the retry budget, each
/// after the first following a timeout, the result being the last attempt's.
pub open spec fn retry_policy(atts: Seq<Result<Seq<u8>, QueryError>>, retry_count: usize, r: Result<Seq<u8>, QueryError>) -> bool {
    &&& 1 <= atts.len() <= retry_count + 1
    &&& forall|i: int| 0 <= i < atts.len() - 1 ==> #[trigger] atts[i] == Err::<Seq<u8>, QueryError>(QueryError::Timeout)
    &&& r == atts.last()
    &&& (r == Err::<Seq<u8>, QueryError>(QueryError::Timeout) ==> atts.len() == retry_count + 1)
}

/// A request of `kind` with `payload`, retried as the policy says, made
/// exactly the sends `ss` and the receives `ds` and ended with `r`.
pub open spec fn exchange_spec(engine: Engine, protocol: u8, kind: u8, payload: Seq<u8>, retry_count: usize, ss: Seq<(Seq<u8>, Result<(), QueryError>)>, ds: Seq<Result<Seq<u8>, QueryError>>, r: Result<Seq<u8>, QueryError>) -> bool {
    exists|atts: Seq<Result<Seq<u8>, QueryError>>|
        #[trigger] attempts_spec(engine, protocol, kind, payload, ss, ds, atts) && retry_policy(atts, retry_count, r)
}

pub open spec fn bytes_view(r: Result<Vec<u8>, QueryError>) -> Result<Seq<u8>, QueryError> {
    match r {
        Ok(v) => Ok(v@),
        Err(e) => Err(e),
    }
}

/// Every receive asked for up to `PACKET_SIZE` bytes.
pub open spec fn all_packet_size(z: Seq<usize>) -> bool {
    forall|i: int| 0 <= i < z.len() ==> #[trigger] z[i] == PACKET_SIZE
}

proof fn lemma_sizes_step(z0: Seq<usize>, z1: Seq<usize>, z2: Seq<usize>)
    requires
        extends(z0, z1),
        extends(z1, z2),
        all_packet_size(added(z0, z1)),
        all_packet_size(added(z1, z2)),
    ensures
        extends(z0, z2),
        all_packet_size(added(z0, z2)),
{
    assert(z2.take(z0.len() as int) =~= z1.take(z0.len() as int));
    assert(added(z0, z2) =~= added(z0, z1) + added(z1, z2)) by {
        assert(z2.take(z1.len() as int) == z1);
    }
    assert forall|i: int| 0 <= i < added(z0, z2).len() implies #[trigger] added(z0, z2)[i] == PACKET_SIZE by {
        if i < added(z0, z1).len() {
            assert(added(z0, z2)[i] == added(z0, z1)[i]);
        } else {
            assert(added(z0, z2)[i] == added(z1, z2)[i - added(z0, z1).len()]);
        }
    }
}

proof fn lemma_sizes_same(z0: Seq<usize>)
    ensures
        extends(z0, z0),
        all_packet_size(added(z0, z0)),
{
    assert(z0.take(z0.len() as int) =~= z0);
}

/// `new` continues `old`; `added(old, new)` is what came after it.
pub open spec fn extends<A>(old: Seq<A>, new: Seq<A>) -> bool {
    old.len() <= new.len() && new.take(old.len() as int) == old
}

pub open spec fn added<A>(old: Seq<A>, new: Seq<A>) -> Seq<A> {
    new.skip(old.len() as int)
}

/// The application id filter that `engine` configures accepts `appid`.
pub open spec fn app_id_accepted(engine: Engine, appid: u32) -> bool {
    match engine {
        Engine::Source(Some((primary, dedicated))) => appid == primary || dedicated == Some(appid),
        _ => true,
    }
}

/// Applies the application id filter: a mismatch is fatal only when the
/// settings ask for the check.
pub fn check_app_id(engine: &Engine, check: bool, appid: u32) -> (r: Result<(), QueryError>)
    ensures
        !app_id_accepted(*engine, appid) && check ==> r == Err::<(), QueryError>(QueryError::BadGame(appid)),
        app_id_accepted(*engine, appid) || !check ==> r is Ok,
{
    if let Engine::Source(Some((primary, dedicated))) = engine {
        let mut specified = *primary == appid;
        if !specified {
            if let Some(d) = dedicated {
                specified = *d == appid;
            }
        }
        if !specified && check {
            return Err(QueryError::BadGame(appid));
        }
    }
    Ok(())
}

/// An info phase that ended with `raw` gives `r`.
pub open spec fn info_outcome(engine: Engine, raw: Result<Seq<u8>, QueryError>, r: Result<ServerInfo, QueryError>) -> bool {
    match raw {
        Err(e) => r == Err::<ServerInfo, QueryError>(e),
        Ok(d) => match info_spec(engine, d) {
            Ok(i) => r matches Ok(x) && info_view(x) == i,
            Err(e) => r matches Err(x) && x == e,
        },
    }
}

/// A players phase that ended with `raw` gives `r`.
pub open spec fn players_outcome(engine: Engine, raw: Result<Seq<u8>, QueryError>, r: Result<Vec<ServerPlayer>, QueryError>) -> bool {
    match raw {
        Err(e) => r == Err::<Vec<ServerPlayer>, QueryError>(e),
        Ok(d) => match players_spec(d, quirks_spec(engine).the_ship_fields) {
            Ok(ps) => r matches Ok(v) && v@.map_values(|p: ServerPlayer| player_view(p)) == ps,
            Err(e) => r matches Err(x) && x == e,
        },
    }
}

/// The rules that a rules response `d` decodes to, for `engine`.
pub open spec fn rules_decoded(engine: Engine, d: Seq<u8>, ts: Seq<Seq<char>>, v: Seq<(String, String)>) -> bool {
    &&& unique_names(v)
    &&& rules_from_pairs(v, ts, le16(d, 0))
    &&& pairs_kept(v, ts, le16(d, 0), if quirks_spec(engine).drop_test_rule { Some(bogus_rule_name()) } else { None })
    &&& (quirks_spec(engine).drop_test_rule ==> !has_rule(v, bogus_rule_name()))
}

/// A rules phase that ended with `raw` gives `r`.
pub open spec fn rules_outcome(engine: Engine, raw: Result<Seq<u8>, QueryError>, r: Result<Vec<(String, String)>, QueryError>) -> bool {
    match raw {
        Err(e) => r == Err::<Vec<(String, String)>, QueryError>(e),
        Ok(d) => match rule_strings(d) {
            Err(e) => r == Err::<Vec<(String, String)>, QueryError>(e),
            Ok(ts) => r matches Ok(v) && rules_decoded(engine, d, ts, v@),
        },
    }
}

/// Query client over one transport, with a fixed retry budget.
pub struct ValveProtocol<T: Transport> {
    pub link: Link<T>,
    pub retry_count: usize,
}

impl<T: Transport> ValveProtocol<T> {
    /// The sends made since `old`.
    pub open spec fn sent_since(&self, old: &Self) -> Seq<(Seq<u8>, Result<(), QueryError>)> {
        added(old.link.sent(), self.link.sent())
    }

    /// The receives made since `old`.
    pub open spec fn received_since(&self, old: &Self) -> Seq<Result<Seq<u8>, QueryError>> {
        added(old.link.received(), self.link.received())
    }

    /// `self` follows `old` on the same link, with the same retry budget,
    /// every receive since asking for up to `PACKET_SIZE` bytes.
    pub open spec fn follows(&self, old: &Self) -> bool {
        &&& self.retry_count == old.retry_count
        &&& extends(old.link.sent(), self.link.sent())
        &&& extends(old.link.received(), self.link.received())
        &&& extends(old.link.receive_sizes(), self.link.receive_sizes())
        &&& all_packet_size(added(old.link.receive_sizes(), self.link.receive_sizes()))
    }

    pub fn new(transport: T, retry_count: usize) -> (r: Self)
        ensures
            r.retry_count == retry_count,
            r.link.sent() == Seq::<(Seq<u8>, Result<(), QueryError>)>::empty(),
            r.link.received() == Seq::<Result<Seq<u8>, QueryError>>::empty(),
    {
        ValveProtocol { link: Link::new(transport), retry_count }
    }

    /// Receives one logical packet, gathering the fragments of a split response.
    #[verifier::loop_isolation(false)]
    fn receive(&mut self, engine: &Engine, protocol: u8, buffer_size: usize) -> (r: Result<Packet, QueryError>)
        requires
            buffer_size == PACKET_SIZE,
        ensures
            final(self).follows(old(self)),
            final(self).link.sent() == old(self).link.sent(),
            receive_result(*engine, protocol, final(self).received_since(old(self))) == Some(packet_view(r)),
            extends(old(self).link.receive_sizes(), final(self).link.receive_sizes()),
            added(old(self).link.receive_sizes(), final(self).link.receive_sizes())
                == Seq::new(final(self).received_since(old(self)).len(), |i: int| buffer_size),
    {
        reveal(receive_result);
        let ghost z0 = self.link.receive_sizes();
        assert(old(self).link.sent().take(old(self).link.sent().len() as int) =~= old(self).link.sent());
        let ghost r0 = self.link.received();
        let data = match self.link.receive(buffer_size) {
            Ok(d) => d,
            Err(e) => {
                assert(added(r0, self.link.received()) =~= seq![Err::<Seq<u8>, QueryError>(e)]);
                assert(self.link.received().take(r0.len() as int) =~= r0);
                assert(self.link.receive_sizes().take(z0.len() as int) =~= z0);
                assert(added(z0, self.link.receive_sizes()) =~= Seq::new(1, |i: int| buffer_size));
                return Err(e);
            },
        };
        let ghost d0 = data@;
        assert(self.link.received().take(r0.len() as int) =~= r0);
        assert(self.link.receive_sizes().take(z0.len() as int) =~= z0);
        assert(added(z0, self.link.receive_sizes()) =~= Seq::new(1, |i: int| buffer_size));
        assert(added(r0, self.link.received()) =~= seq![Ok::<Seq<u8>, QueryError>(d0)]);
        if data.len() > 0 && data[0] == SPLIT_MARKER {
            let first = match SplitPacket::new(engine, protocol, data) {
                Ok(f) => f,
                Err(e) => return Err(e),
            };
            let mut rest: Vec<SplitPacket> = Vec::new();
            let ghost mut more: Seq<Result<Seq<u8>, QueryError>> = Seq::empty();
            let mut k: u8 = 1;
            while k < first.total
                invariant
                    1 <= k <= first.total,
                    self.retry_count == old(self).retry_count,
                    self.link.sent() == old(self).link.sent(),
                    r0 == old(self).link.received(),
                    self.link.received() == r0.push(Ok::<Seq<u8>, QueryError>(d0)) + more,
                    more.len() == k - 1,
                    z0 == old(self).link.receive_sizes(),
                    self.link.receive_sizes() == z0 + Seq::new(k as nat, |i: int| buffer_size),
                    split_spec(*engine, protocol, d0) == Ok::<FragmentSpec, QueryError>(first@),
                    is_split(d0),
                    forall|i: int| 0 <= i < more.len() ==> (#[trigger] datagram_fragment(*engine, protocol, more[i])) is Ok,
                    rest@.map_values(|p: SplitPacket| p@) == Seq::new(more.len(), |i: int| datagram_fragment(*engine, protocol, more[i])->Ok_0),
                decreases first.total - k,
            {
                let ghost old_more = more;
                let ghost old_rest = rest@;
                let x = self.link.receive(buffer_size);
                let ghost xv = datagram_view(x);
                proof {
                    assert(self.link.receive_sizes() =~= z0 + Seq::new((k + 1) as nat, |i: int| buffer_size));
                    assert(self.link.receive_sizes().take(z0.len() as int) =~= z0);
                    assert(added(z0, self.link.receive_sizes()) =~= Seq::new((k + 1) as nat, |i: int| buffer_size));
                    more = more.push(xv);
                    assert forall|i: int| 0 <= i < more.len() - 1 implies
                        (#[trigger] datagram_fragment(*engine, protocol, more[i])) is Ok by {
                        assert(more[i] == old_more[i]);
                    }
                    assert(self.link.received() =~= r0.push(Ok::<Seq<u8>, QueryError>(d0)) + more);
                    assert(self.link.received().take(r0.len() as int) =~= r0);
                    assert(added(r0, self.link.received()) =~= seq![Ok::<Seq<u8>, QueryError>(d0)] + more);
                    assert((seq![Ok::<Seq<u8>, QueryError>(d0)] + more).drop_first() =~= more);
                }
                let more_data = match x {
                    Ok(d) => d,
                    Err(e) => return Err(e),
                };
                let f = match SplitPacket::new(engine, protocol, more_data) {
                    Ok(f) => f,
                    Err(e) => return Err(e),
                };
                rest.push(f);
                k = k + 1;
                assert(datagram_fragment(*engine, protocol, more[more.len() - 1]) == Ok::<FragmentSpec, QueryError>(rest@[rest@.len() - 1]@));
                assert forall|i: int| 0 <= i < rest@.len() implies #[trigger] rest@[i]@
                    == datagram_fragment(*engine, protocol, more[i])->Ok_0 by {
                    if i < old_rest.len() {
                        assert(rest@[i] == old_rest[i]);
                        assert(more[i] == old_more[i]);
                        assert(old_rest.map_values(|p: SplitPacket| p@)[i] == old_rest[i]@);
                    }
                }
                assert(rest@.map_values(|p: SplitPacket| p@) =~= Seq::new(more.len(), |i: int| datagram_fragment(*engine, protocol, more[i])->Ok_0));
            }
            assert(self.link.received().take(r0.len() as int) =~= r0);
            assert(added(r0, self.link.received()) =~= seq![Ok::<Seq<u8>, QueryError>(d0)] + more);
            assert((seq![Ok::<Seq<u8>, QueryError>(d0)] + more).drop_first() =~= more);
            assert(self.link.receive_sizes().take(z0.len() as int) =~= z0);
            assert(added(z0, self.link.receive_sizes()) =~= Seq::new(k as nat, |i: int| buffer_size));
            assemble_fragments(first, rest)
        } else {
            Packet::from_bytes(data)
        }
    }
}

impl<T: Transport> ValveProtocol<T> {
    /// One request and its answer, answering challenges until the server
    /// replies with another kind of packet.
    #[verifier::loop_isolation(false)]
    fn get_request_data_impl(&mut self, engine: &Engine, protocol: u8, kind: u8, payload: Vec<u8>) -> (r: Result<Vec<u8>, QueryError>)
        ensures
            final(self).follows(old(self)),
            exists|ps: Seq<Result<(u8, Seq<u8>), QueryError>>|
                #[trigger] received_packets(*engine, protocol, final(self).received_since(old(self)), ps)
                && attempt_spec(kind, payload@, final(self).sent_since(old(self)), ps, bytes_view(r)),
    {
        reveal(attempt_spec);
        let ghost s0 = self.link.sent();
        let ghost d0 = self.link.received();
        let ghost z0 = self.link.receive_sizes();
        let ghost p0 = payload@;
        proof {
            lemma_sizes_same(z0);
        }
        let request = Packet::new(kind, payload).to_bytes();
        let sent = self.link.send(&request);
        proof {
            assert(self.link.sent().take(s0.len() as int) =~= s0);
            assert(self.link.received().take(d0.len() as int) =~= d0);
            assert(added(s0, self.link.sent()) =~= seq![(request@, sent)]);
            assert(added(d0, self.link.received()) =~= Seq::<Result<Seq<u8>, QueryError>>::empty());
            assert(received_packets(*engine, protocol, added(d0, self.link.received()), Seq::empty()));
        }
        match sent {
            Ok(()) => {},
            Err(e) => {
                assert(attempt_spec(kind, p0, self.sent_since(old(self)), Seq::empty(), bytes_view(Err(e))));
                assert(received_packets(*engine, protocol, self.received_since(old(self)), Seq::empty()));
                return Err(e);
            },
        }
        let ghost mid = self.link.received();
        let first = self.receive(engine, protocol, PACKET_SIZE);
        let ghost mut ps: Seq<Result<(u8, Seq<u8>), QueryError>> = seq![packet_view(first)];
        proof {
            lemma_sizes_step(z0, z0, self.link.receive_sizes());
            lemma_received_packets_push(*engine, protocol, Seq::empty(), Seq::empty(), added(mid, self.link.received()), packet_view(first));
            assert(Seq::<Result<Seq<u8>, QueryError>>::empty() + added(mid, self.link.received()) =~= added(d0, self.link.received()));
            assert(Seq::<Result<(u8, Seq<u8>), QueryError>>::empty().push(packet_view(first)) =~= ps);
            assert(self.link.received().take(d0.len() as int) =~= d0);
        }
        let mut packet = match first {
            Ok(p) => p,
            Err(e) => {
                assert(attempt_spec(kind, p0, self.sent_since(old(self)), ps, bytes_view(Err(e))));
                assert(received_packets(*engine, protocol, self.received_since(old(self)), ps));
                return Err(e);
            },
        };
        // The count of rounds is kept in a usize, which no server exhausts.
        let mut rounds: usize = 0;
        loop
            invariant
                self.retry_count == old(self).retry_count,
                extends(s0, self.link.sent()),
                extends(d0, self.link.received()),
                s0 == old(self).link.sent(),
                d0 == old(self).link.received(),
                z0 == old(self).link.receive_sizes(),
                extends(z0, self.link.receive_sizes()),
                all_packet_size(added(z0, self.link.receive_sizes())),
                received_packets(*engine, protocol, added(d0, self.link.received()), ps),
                attempt_progress(kind, p0, added(s0, self.link.sent()), ps),
                added(s0, self.link.sent()).len() == ps.len(),
                added(s0, self.link.sent()).last().1 is Ok,
                ps.len() == rounds + 1,
                ps.last() == Ok::<(u8, Seq<u8>), QueryError>((packet.kind, packet.payload@)),
            decreases usize::MAX - rounds,
        {
            match challenge_reply(kind, &packet) {
                None => {
                    assert(attempt_spec(kind, p0, self.sent_since(old(self)), ps, Ok::<Seq<u8>, QueryError>(packet.payload@)));
                    assert(received_packets(*engine, protocol, self.received_since(old(self)), ps));
                    return Ok(packet.payload);
                },
                Some(answer) => {
                    if rounds == usize::MAX {
                        assert(attempt_spec(kind, p0, self.sent_since(old(self)), ps, Err::<Seq<u8>, QueryError>(QueryError::Timeout)));
                        assert(received_packets(*engine, protocol, self.received_since(old(self)), ps));
                        return Err(QueryError::Timeout);
                    }
                    rounds = rounds + 1;
                    let ghost ss_before = added(s0, self.link.sent());
                    let res = self.link.send(&answer);
                    proof {
                        assert(self.link.sent().take(s0.len() as int) =~= s0);
                        assert(added(s0, self.link.sent()) =~= ss_before.push((answer@, res)));
                        let ss = added(s0, self.link.sent());
                        assert forall|i: int| 1 <= i < ss.len() implies (#[trigger] ss[i]).0 == reply_bytes(kind, ps[i - 1]) by {
                            if i < ss.len() - 1 {
                                assert(ss[i] == ss_before[i]);
                            }
                        }
                        assert forall|i: int| 0 <= i < ss.len() - 1 implies (#[trigger] ss[i]).1 is Ok by {
                            assert(ss[i] == ss_before[i]);
                        }
                    }
                    match res {
                        Ok(()) => {},
                        Err(e) => {
                            assert(attempt_spec(kind, p0, self.sent_since(old(self)), ps, Err::<Seq<u8>, QueryError>(e)));
                            assert(received_packets(*engine, protocol, self.received_since(old(self)), ps));
                            return Err(e);
                        },
                    }
                    let ghost mid2 = self.link.received();
                    let ghost zb = self.link.receive_sizes();
                    let next = self.receive(engine, protocol, PACKET_SIZE);
                    proof {
                        lemma_sizes_step(z0, zb, self.link.receive_sizes());
                        lemma_received_packets_push(*engine, protocol, added(d0, mid2), ps, added(mid2, self.link.received()), packet_view(next));
                        assert(added(d0, mid2) + added(mid2, self.link.received()) =~= added(d0, self.link.received()));
                        assert(self.link.received().take(d0.len() as int) =~= d0);
                        let old_ps = ps;
                        ps = ps.push(packet_view(next));
                        assert forall|i: int| 0 <= i < ps.len() - 1 implies is_challenge(#[trigger] ps[i]) by {
                            if i < old_ps.len() - 1 {
                                assert(ps[i] == old_ps[i]);
                            }
                        }
                        let ss = added(s0, self.link.sent());
                        assert forall|i: int| 1 <= i < ss.len() implies (#[trigger] ss[i]).0 == reply_bytes(kind, ps[i - 1]) by {
                            assert(ps[i - 1] == old_ps[i - 1]);
                        }
                    }
                    packet = match next {
                        Ok(p) => p,
                        Err(e) => {
                            assert(attempt_spec(kind, p0, self.sent_since(old(self)), ps, Err::<Seq<u8>, QueryError>(e)));
                            assert(received_packets(*engine, protocol, self.received_since(old(self)), ps));
                            return Err(e);
                        },
                    };
                },
            }
        }
    }

    /// Asks for one request, retrying after timeouts up to the retry budget.
    #[verifier::loop_isolation(false)]
    pub fn get_request_data(&mut self, engine: &Engine, protocol: u8, kind: u8, payload: Vec<u8>) -> (r: Result<Vec<u8>, QueryError>)
        ensures
            final(self).follows(old(self)),
            exchange_spec(*engine, protocol, kind, payload@, old(self).retry_count,
                final(self).sent_since(old(self)), final(self).received_since(old(self)), bytes_view(r)),
    {
        let ghost s0 = self.link.sent();
        let ghost d0 = self.link.received();
        let ghost z0 = self.link.receive_sizes();
        proof {
            lemma_sizes_same(z0);
        }
        let ghost mut atts: Seq<Result<Seq<u8>, QueryError>> = Seq::empty();
        let mut left: usize = self.retry_count;
        proof {
            assert(self.link.sent().take(s0.len() as int) =~= s0);
            assert(self.link.received().take(d0.len() as int) =~= d0);
            assert(added(s0, self.link.sent()) =~= Seq::<(Seq<u8>, Result<(), QueryError>)>::empty());
            assert(added(d0, self.link.received()) =~= Seq::<Result<Seq<u8>, QueryError>>::empty());
        }
        loop
            invariant
                self.retry_count == old(self).retry_count,
                s0 == old(self).link.sent(),
                d0 == old(self).link.received(),
                extends(s0, self.link.sent()),
                extends(d0, self.link.received()),
                z0 == old(self).link.receive_sizes(),
                extends(z0, self.link.receive_sizes()),
                all_packet_size(added(z0, self.link.receive_sizes())),
                left <= self.retry_count,
                atts.len() == self.retry_count - left,
                forall|i: int| 0 <= i < atts.len() ==> #[trigger] atts[i] == Err::<Seq<u8>, QueryError>(QueryError::Timeout),
                attempts_spec(*engine, protocol, kind, payload@, added(s0, self.link.sent()), added(d0, self.link.received()), atts),
            decreases left,
        {
            let ghost s1 = self.link.sent();
            let ghost d1 = self.link.received();
            let ghost z1 = self.link.receive_sizes();
            let res = self.get_request_data_impl(engine, protocol, kind, payload.clone());
            proof {
                lemma_sizes_step(z0, z1, self.link.receive_sizes());
                let ps = choose|ps: Seq<Result<(u8, Seq<u8>), QueryError>>|
                    #[trigger] received_packets(*engine, protocol, added(d1, self.link.received()), ps)
                    && attempt_spec(kind, payload@, added(s1, self.link.sent()), ps, bytes_view(res));
                lemma_attempts_push(*engine, protocol, kind, payload@, added(s0, s1), added(d0, d1), atts,
                    added(s1, self.link.sent()), added(d1, self.link.received()), ps, bytes_view(res));
                assert(added(s0, s1) + added(s1, self.link.sent()) =~= added(s0, self.link.sent()));
                assert(added(d0, d1) + added(d1, self.link.received()) =~= added(d0, self.link.received()));
                assert(self.link.sent().take(s0.len() as int) =~= s0);
                assert(self.link.received().take(d0.len() as int) =~= d0);
                let old_atts = atts;
                atts = atts.push(bytes_view(res));
                assert forall|i: int| 0 <= i < atts.len() - 1 implies #[trigger] atts[i] == Err::<Seq<u8>, QueryError>(QueryError::Timeout) by {
                    assert(atts[i] == old_atts[i]);
                }
            }
            match res {
                Ok(data) => return Ok(data),
                Err(e) => {
                    if should_retry(e, left) {
                        left = left - 1;
                    } else {
                        return Err(e);
                    }
                },
            }
        }
    }

    /// Asks for one request kind with its default payload.
    pub fn get_kind_request_data(&mut self, engine: &Engine, protocol: u8, kind: Request) -> (r: Result<Vec<u8>, QueryError>)
        ensures
            final(self).follows(old(self)),
            exchange_spec(*engine, protocol, request_kind_spec(kind), default_payload_spec(kind), old(self).retry_count,
                final(self).sent_since(old(self)), final(self).received_since(old(self)), bytes_view(r)),
    {
        self.get_request_data(engine, protocol, kind.kind(), kind.get_default_payload())
    }

    pub fn get_server_info(&mut self, engine: &Engine) -> (r: Result<ServerInfo, QueryError>)
        ensures
            final(self).follows(old(self)),
            exists|raw: Result<Seq<u8>, QueryError>|
                #[trigger] exchange_spec(*engine, 0, INFO_KIND, info_probe(), old(self).retry_count,
                    final(self).sent_since(old(self)), final(self).received_since(old(self)), raw)
                && info_outcome(*engine, raw, r),
    {
        let data = self.get_kind_request_data(engine, 0, Request::Info);
        let ghost raw = bytes_view(data);
        let r = match data {
            Ok(d) => decode_info(engine, d),
            Err(e) => Err(e),
        };
        assert(info_outcome(*engine, raw, r));
        r
    }

    pub fn get_server_players(&mut self, engine: &Engine, protocol: u8) -> (r: Result<Vec<ServerPlayer>, QueryError>)
        ensures
            final(self).follows(old(self)),
            exists|raw: Result<Seq<u8>, QueryError>|
                #[trigger] exchange_spec(*engine, protocol, PLAYERS_KIND, default_payload_spec(Request::Players),
                    old(self).retry_count, final(self).sent_since(old(self)), final(self).received_since(old(self)), raw)
                && players_outcome(*engine, raw, r),
    {
        let data = self.get_kind_request_data(engine, protocol, Request::Players);
        let ghost raw = bytes_view(data);
        let r = match data {
            Ok(d) => decode_players(engine, d),
            Err(e) => Err(e),
        };
        assert(players_outcome(*engine, raw, r));
        r
    }

    pub fn get_server_rules(&mut self, engine: &Engine, protocol: u8) -> (r: Result<Vec<(String, String)>, QueryError>)
        ensures
            final(self).follows(old(self)),
            exists|raw: Result<Seq<u8>, QueryError>|
                #[trigger] exchange_spec(*engine, protocol, RULES_KIND, default_payload_spec(Request::Rules),
                    old(self).retry_count, final(self).sent_since(old(self)), final(self).received_since(old(self)), raw)
                && rules_outcome(*engine, raw, r),
    {
        let data = self.get_kind_request_data(engine, protocol, Request::Rules);
        let ghost raw = bytes_view(data);
        let r = match data {
            Ok(d) => decode_rules(engine, d),
            Err(e) => Err(e),
        };
        assert(rules_outcome(*engine, raw, r));
        r
    }
}

/// What an info phase that ended with `raw` decodes to.
pub open spec fn info_result(engine: Engine, raw: Result<Seq<u8>, QueryError>) -> Result<InfoSpec, QueryError> {
    match raw {
        Err(e) => Err(e),
        Ok(d) => info_spec(engine, d),
    }
}

/// What a players phase that ended with `raw` decodes to.
pub open spec fn players_result(engine: Engine, raw: Result<Seq<u8>, QueryError>) -> Result<Seq<PlayerSpec>, QueryError> {
    match raw {
        Err(e) => Err(e),
        Ok(d) => players_spec(d, quirks_spec(engine).the_ship_fields),
    }
}

/// The payload and rule strings of a rules phase that ended with `raw`.
pub open spec fn rules_result(raw: Result<Seq<u8>, QueryError>) -> Result<(Seq<u8>, Seq<Seq<char>>), QueryError> {
    match raw {
        Err(e) => Err(e),
        Ok(d) => match rule_strings(d) {
            Err(e) => Err(e),
            Ok(ts) => Ok((d, ts)),
        },
    }
}

/// A phase that is made exactly when `requested`: one exchange, or nothing
/// sent and nothing received.
pub open spec fn phase_spec(engine: Engine, protocol: u8, kind: u8, payload: Seq<u8>, retry_count: usize, requested: bool, ss: Seq<(Seq<u8>, Result<(), QueryError>)>, ds: Seq<Result<Seq<u8>, QueryError>>, raw: Result<Seq<u8>, QueryError>) -> bool {
    if requested {
        exchange_spec(engine, protocol, kind, payload, retry_count, ss, ds, raw)
    } else {
        ss.len() == 0 && ds.len() == 0
    }
}

/// The players phase ran and failed.
pub open spec fn players_failed(engine: Engine, settings: GatheringSettings, raw_p: Result<Seq<u8>, QueryError>) -> bool {
    settings.players && players_result(engine, raw_p) is Err
}

/// The rules phase runs: the settings ask for it and no players phase failed.
pub open spec fn rules_requested(engine: Engine, settings: GatheringSettings, raw_p: Result<Seq<u8>, QueryError>) -> bool {
    settings.rules && !players_failed(engine, settings, raw_p)
}

/// The response, or the first failure, of a query whose info is `i` and
/// whose players and rules phases ended with `raw_p` and `raw_r`.
pub open spec fn gathered(engine: Engine, settings: GatheringSettings, i: InfoSpec, raw_p: Result<Seq<u8>, QueryError>, raw_r: Result<Seq<u8>, QueryError>, r: Result<Response, QueryError>) -> bool {
    if players_failed(engine, settings, raw_p) {
        r == Err::<Response, QueryError>(players_result(engine, raw_p)->Err_0)
    } else if settings.rules && rules_result(raw_r) is Err {
        r == Err::<Response, QueryError>(rules_result(raw_r)->Err_0)
    } else {
        r matches Ok(resp) && info_view(resp.info) == i
            && (if settings.players {
                resp.players matches Some(ps)
                    && ps@.map_values(|p: ServerPlayer| player_view(p)) == players_result(engine, raw_p)->Ok_0
            } else {
                resp.players is None
            })
            && (if settings.rules {
                resp.rules matches Some(v)
                    && rules_decoded(engine, rules_result(raw_r)->Ok_0.0, rules_result(raw_r)->Ok_0.1, v@)
            } else {
                resp.rules is None
            })
    }
}

/// What follows an info phase that ended with `raw_i`: the sends `ss` and
/// receives `ds` after it, and the result `r`. A failed info phase or a
/// failed application id check ends the query with nothing more sent;
/// otherwise the players phase, then the rules phase, run as the settings
/// ask, with the info's protocol version, a failed players phase skipping
/// the rules phase.
pub open spec fn after_info(engine: Engine, settings: GatheringSettings, retry_count: usize, raw_i: Result<Seq<u8>, QueryError>, ss: Seq<(Seq<u8>, Result<(), QueryError>)>, ds: Seq<Result<Seq<u8>, QueryError>>, r: Result<Response, QueryError>) -> bool {
    match info_result(engine, raw_i) {
        Err(e) => r == Err::<Response, QueryError>(e) && ss.len() == 0 && ds.len() == 0,
        Ok(i) => if settings.check_app_id && !app_id_accepted(engine, i.appid) {
            r == Err::<Response, QueryError>(QueryError::BadGame(i.appid)) && ss.len() == 0 && ds.len() == 0
        } else {
            exists|a: int, b: int, raw_p: Result<Seq<u8>, QueryError>, raw_r: Result<Seq<u8>, QueryError>|
                0 <= a <= ss.len() && 0 <= b <= ds.len()
                && #[trigger] phase_spec(engine, i.protocol_version, PLAYERS_KIND, default_payload_spec(Request::Players),
                    retry_count, settings.players, ss.take(a), ds.take(b), raw_p)
                && #[trigger] phase_spec(engine, i.protocol_version, RULES_KIND, default_payload_spec(Request::Rules),
                    retry_count, rules_requested(engine, settings, raw_p), ss.skip(a), ds.skip(b), raw_r)
                && gathered(engine, settings, i, raw_p, raw_r, r)
        },
    }
}

/// A whole query: an info exchange with protocol 0 first, then what
/// `after_info` says.
pub open spec fn response_spec(engine: Engine, settings: GatheringSettings, retry_count: usize, ss: Seq<(Seq<u8>, Result<(), QueryError>)>, ds: Seq<Result<Seq<u8>, QueryError>>, r: Result<Response, QueryError>) -> bool {
    exists|a: int, b: int, raw_i: Result<Seq<u8>, QueryError>|
        0 <= a <= ss.len() && 0 <= b <= ds.len()
        && #[trigger] exchange_spec(engine, 0, INFO_KIND, info_probe(), retry_count, ss.take(a), ds.take(b), raw_i)
        && after_info(engine, settings, retry_count, raw_i, ss.skip(a), ds.skip(b), r)
}

proof fn lemma_added_split<A>(x: Seq<A>, y: Seq<A>, z: Seq<A>)
    requires
        extends(x, y),
        extends(y, z),
    ensures
        added(x, z).take(added(x, y).len() as int) == added(x, y),
        added(x, z).skip(added(x, y).len() as int) == added(y, z),
        added(x, y).len() <= added(x, z).len(),
{
    assert(z.take(y.len() as int) == y);
    assert(added(x, z).take(added(x, y).len() as int) =~= added(x, y));
    assert(added(x, z).skip(added(x, y).len() as int) =~= added(y, z));
}

proof fn lemma_added_nothing<A>(x: Seq<A>)
    ensures
        added(x, x).len() == 0,
{
}

/// Runs a whole query: the info, the application id check, then the players
/// and rules that the settings ask for, using the info's protocol version.
pub fn get_response<T: Transport>(client: &mut ValveProtocol<T>, engine: Engine, settings: GatheringSettings) -> (r: Result<Response, QueryError>)
    ensures
        final(client).follows(old(client)),
        response_spec(engine, settings, old(client).retry_count, final(client).sent_since(old(client)),
            final(client).received_since(old(client)), r),
{
    let ghost c0 = *client;
    let ri = client.get_server_info(&engine);
    let ghost c1 = *client;
    let ghost raw_i = choose|raw: Result<Seq<u8>, QueryError>|
        #[trigger] exchange_spec(engine, 0, INFO_KIND, info_probe(), c0.retry_count,
            c1.sent_since(&c0), c1.received_since(&c0), raw)
        && info_outcome(engine, raw, ri);
    let ghost a0 = c1.sent_since(&c0).len() as int;
    let ghost b0 = c1.received_since(&c0).len() as int;
    let info = match ri {
        Ok(i) => i,
        Err(e) => {
            proof {
                lemma_follows_refl(client);
                lemma_added_split(c0.link.sent(), c1.link.sent(), client.link.sent());
                lemma_added_split(c0.link.received(), c1.link.received(), client.link.received());
                assert(after_info(engine, settings, c0.retry_count, raw_i, client.sent_since(&c0).skip(a0), client.received_since(&c0).skip(b0), Err::<Response, QueryError>(e)));
                assert(exchange_spec(engine, 0, INFO_KIND, info_probe(), c0.retry_count, client.sent_since(&c0).take(a0), client.received_since(&c0).take(b0), raw_i));
            }
            return Err(e);
        },
    };
    let ghost iv = info_view(info);
    assert(info_result(engine, raw_i) == Ok::<InfoSpec, QueryError>(iv));
    match check_app_id(&engine, settings.check_app_id, info.appid) {
        Ok(()) => {},
        Err(e) => {
            proof {
                lemma_follows_refl(client);
                lemma_added_split(c0.link.sent(), c1.link.sent(), client.link.sent());
                lemma_added_split(c0.link.received(), c1.link.received(), client.link.received());
                assert(after_info(engine, settings, c0.retry_count, raw_i, client.sent_since(&c0).skip(a0), client.received_since(&c0).skip(b0), Err::<Response, QueryError>(e)));
                assert(exchange_spec(engine, 0, INFO_KIND, info_probe(), c0.retry_count, client.sent_since(&c0).take(a0), client.received_since(&c0).take(b0), raw_i));
            }
            return Err(e);
        },
    }
    let protocol = info.protocol_version;
    let ghost mut raw_p: Result<Seq<u8>, QueryError> = Err(QueryError::Timeout);
    let players = if settings.players {
        let p = client.get_server_players(&engine, protocol);
        proof {
            raw_p = choose|raw: Result<Seq<u8>, QueryError>|
                #[trigger] exchange_spec(engine, protocol, PLAYERS_KIND, default_payload_spec(Request::Players),
                    c1.retry_count, client.sent_since(&c1), client.received_since(&c1), raw)
                && players_outcome(engine, raw, p);
        }
        match p {
            Ok(ps) => Some(ps),
            Err(e) => {
                proof {
                    let ss = client.sent_since(&c1);
                    let ds = client.received_since(&c1);
                    lemma_follows_trans(&c0, &c1, client);
                    lemma_added_split(c0.link.sent(), c1.link.sent(), client.link.sent());
                    lemma_added_split(c0.link.received(), c1.link.received(), client.link.received());
                    assert(ss.take(ss.len() as int) =~= ss);
                    assert(ds.take(ds.len() as int) =~= ds);
                    assert(ss.skip(ss.len() as int).len() == 0);
                    assert(ds.skip(ds.len() as int).len() == 0);
                    assert(phase_spec(engine, iv.protocol_version, PLAYERS_KIND, default_payload_spec(Request::Players),
                        c0.retry_count, settings.players, ss.take(ss.len() as int), ds.take(ds.len() as int), raw_p));
                    assert(phase_spec(engine, iv.protocol_version, RULES_KIND, default_payload_spec(Request::Rules),
                        c0.retry_count, rules_requested(engine, settings, raw_p), ss.skip(ss.len() as int), ds.skip(ds.len() as int), raw_p));
                    assert(gathered(engine, settings, iv, raw_p, raw_p, Err::<Response, QueryError>(e)));
                    assert(after_info(engine, settings, c0.retry_count, raw_i, client.sent_since(&c0).skip(a0), client.received_since(&c0).skip(b0), Err::<Response, QueryError>(e)));
                    assert(exchange_spec(engine, 0, INFO_KIND, info_probe(), c0.retry_count, client.sent_since(&c0).take(a0), client.received_since(&c0).take(b0), raw_i));
                }
                return Err(e);
            },
        }
    } else {
        proof {
            lemma_follows_refl(client);
        }
        None
    };
    let ghost c2 = *client;
    proof {
        lemma_follows_trans(&c0, &c1, &c2);
    }
    let ghost mut raw_r: Result<Seq<u8>, QueryError> = Err(QueryError::Timeout);
    let rules = if settings.rules {
        let v = client.get_server_rules(&engine, protocol);
        proof {
            raw_r = choose|raw: Result<Seq<u8>, QueryError>|
                #[trigger] exchange_spec(engine, protocol, RULES_KIND, default_payload_spec(Request::Rules),
                    c2.retry_count, client.sent_since(&c2), client.received_since(&c2), raw)
                && rules_outcome(engine, raw, v);
        }
        match v {
            Ok(v) => Some(v),
            Err(e) => {
                proof {
                    let ss = client.sent_since(&c1);
                    let ds = client.received_since(&c1);
                    let a1 = c2.sent_since(&c1).len() as int;
                    let b1 = c2.received_since(&c1).len() as int;
                    lemma_follows_trans(&c0, &c2, client);
                    lemma_follows_trans(&c1, &c2, client);
                    lemma_added_split(c0.link.sent(), c1.link.sent(), client.link.sent());
                    lemma_added_split(c0.link.received(), c1.link.received(), client.link.received());
                    lemma_added_split(c1.link.sent(), c2.link.sent(), client.link.sent());
                    lemma_added_split(c1.link.received(), c2.link.received(), client.link.received());
                    assert(phase_spec(engine, iv.protocol_version, PLAYERS_KIND, default_payload_spec(Request::Players),
                        c0.retry_count, settings.players, ss.take(a1), ds.take(b1), raw_p));
                    assert(phase_spec(engine, iv.protocol_version, RULES_KIND, default_payload_spec(Request::Rules),
                        c0.retry_count, rules_requested(engine, settings, raw_p), ss.skip(a1), ds.skip(b1), raw_r));
                    assert(gathered(engine, settings, iv, raw_p, raw_r, Err::<Response, QueryError>(e)));
                    assert(after_info(engine, settings, c0.retry_count, raw_i, client.sent_since(&c0).skip(a0), client.received_since(&c0).skip(b0), Err::<Response, QueryError>(e)));
                    assert(exchange_spec(engine, 0, INFO_KIND, info_probe(), c0.retry_count, client.sent_since(&c0).take(a0), client.received_since(&c0).take(b0), raw_i));
                }
                return Err(e);
            },
        }
    } else {
        proof {
            lemma_follows_refl(client);
        }
        None
    };
    let resp = Response { info, players, rules };
    proof {
        let ss = client.sent_since(&c1);
        let ds = client.received_since(&c1);
        let a1 = c2.sent_since(&c1).len() as int;
        let b1 = c2.received_since(&c1).len() as int;
        lemma_follows_trans(&c0, &c2, client);
        lemma_follows_trans(&c1, &c2, client);
        lemma_added_split(c0.link.sent(), c1.link.sent(), client.link.sent());
        lemma_added_split(c0.link.received(), c1.link.received(), client.link.received());
        lemma_added_split(c1.link.sent(), c2.link.sent(), client.link.sent());
        lemma_added_split(c1.link.received(), c2.link.received(), client.link.received());
        assert(phase_spec(engine, iv.protocol_version, PLAYERS_KIND, default_payload_spec(Request::Players),
            c0.retry_count, settings.players, ss.take(a1), ds.take(b1), raw_p));
        assert(phase_spec(engine, iv.protocol_version, RULES_KIND, default_payload_spec(Request::Rules),
            c0.retry_count, rules_requested(engine, settings, raw_p), ss.skip(a1), ds.skip(b1), raw_r));
        assert(gathered(engine, settings, iv, raw_p, raw_r, Ok::<Response, QueryError>(resp)));
        assert(after_info(engine, settings, c0.retry_count, raw_i, client.sent_since(&c0).skip(a0), client.received_since(&c0).skip(b0), Ok::<Response, QueryError>(resp)));
        assert(exchange_spec(engine, 0, INFO_KIND, info_probe(), c0.retry_count, client.sent_since(&c0).take(a0), client.received_since(&c0).take(b0), raw_i));
    }
    Ok(resp)
}

proof fn lemma_follows_refl<T: Transport>(c: &ValveProtocol<T>)
    ensures
        c.follows(c),
{
    assert(c.link.sent().take(c.link.sent().len() as int) =~= c.link.sent());
    assert(c.link.received().take(c.link.received().len() as int) =~= c.link.received());
    lemma_sizes_same(c.link.receive_sizes());
}

proof fn lemma_follows_trans<T: Transport>(a: &ValveProtocol<T>, b: &ValveProtocol<T>, c: &ValveProtocol<T>)
    requires
        b.follows(a),
        c.follows(b),
    ensures
        c.follows(a),
{
    lemma_extends_trans(a.link.sent(), b.link.sent(), c.link.sent());
    lemma_extends_trans(a.link.received(), b.link.received(), c.link.received());
    lemma_sizes_step(a.link.receive_sizes(), b.link.receive_sizes(), c.link.receive_sizes());
}

proof fn lemma_extends_trans<A>(a: Seq<A>, b: Seq<A>, c: Seq<A>)
    requires
        extends(a, b),
        extends(b, c),
    ensures
        extends(a, c),
{
    assert(c.take(a.len() as int) =~= b.take(a.len() as int));
}

} // verus!

verus! {

/// An attempt that succeeds made one round trip per challenge and one more:
/// as many sends as packets received, every packet but the last a
/// challenge answered by the next send, and the last packet the answer.
pub proof fn lemma_successful_attempt_round_trips(kind: u8, payload: Seq<u8>, ss: Seq<(Seq<u8>, Result<(), QueryError>)>, ps: Seq<Result<(u8, Seq<u8>), QueryError>>, b: Seq<u8>)
    requires
        attempt_spec(kind, payload, ss, ps, Ok::<Seq<u8>, QueryError>(b)),
    ensures
        ss.len() == ps.len(),
        ps.len() >= 1,
        ss[0].0 == packet_bytes(kind, payload),
        forall|i: int| 0 <= i < ps.len() - 1 ==> is_challenge(#[trigger] ps[i]),
        forall|i: int| 1 <= i < ss.len() ==> (#[trigger] ss[i]).0 == reply_bytes(kind, ps[i - 1]),
        ps.last() matches Ok((k, body)) && k != CHALLENGE_KIND && body == b,
{
    reveal(attempt_spec);
}

/// A request whose every attempt timed out made one attempt more than the
/// retry budget; any other error ends the request at once.
pub proof fn lemma_retry_count(atts: Seq<Result<Seq<u8>, QueryError>>, retry_count: usize, r: Result<Seq<u8>, QueryError>)
    requires
        retry_policy(atts, retry_count, r),
    ensures
        r == Err::<Seq<u8>, QueryError>(QueryError::Timeout) ==> atts.len() == retry_count + 1,
        forall|i: int| 0 <= i < atts.len() - 1 ==> #[trigger] atts[i] == Err::<Seq<u8>, QueryError>(QueryError::Timeout),
        r == atts.last(),
{
}

} // verus!
