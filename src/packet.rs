use vstd::prelude::*;
use crate::cursor::{le16, le32, Reader};
use crate::types::{quirks_of, quirks_spec, Engine, QueryError, FIXED_FRAGMENT_SIZE};

verus! {

/// Leading byte of a datagram that carries one fragment of a split response.
pub const SPLIT_MARKER: u8 = 0xFE;

/// One logical message: its kind byte and its body.
pub struct Packet {
    pub kind: u8,
    pub payload: Vec<u8>,
}

/// The datagram that carries a single-packet message.
pub open spec fn packet_bytes(kind: u8, payload: Seq<u8>) -> Seq<u8> {
    seq![0xffu8, 0xffu8, 0xffu8, 0xffu8, kind] + payload
}

impl Packet {
    pub fn new(kind: u8, payload: Vec<u8>) -> (r: Packet)
        ensures
            r.kind == kind,
            r.payload@ == payload@,
    {
        Packet { kind, payload }
    }

    /// The datagram that sends this packet.
    pub fn to_bytes(&self) -> (r: Vec<u8>)
        ensures
            r@ == packet_bytes(self.kind, self.payload@),
    {
        let mut out: Vec<u8> = vec![0xffu8, 0xffu8, 0xffu8, 0xffu8, self.kind];
        let mut i: usize = 0;
        while i < self.payload.len()
            invariant
                i <= self.payload@.len(),
                out@ == seq![0xffu8, 0xffu8, 0xffu8, 0xffu8, self.kind] + self.payload@.subrange(0, i as int),
            decreases self.payload@.len() - i,
        {
            out.push(self.payload[i]);
            i = i + 1;
            assert(out@ =~= seq![0xffu8, 0xffu8, 0xffu8, 0xffu8, self.kind] + self.payload@.subrange(0, i as int));
        }
        assert(self.payload@.subrange(0, self.payload@.len() as int) =~= self.payload@);
        out
    }

    /// Reads a packet: a 4-byte header, the kind byte, and the body.
    pub fn from_bytes(data: Vec<u8>) -> (r: Result<Packet, QueryError>)
        ensures
            data@.len() < 5 ==> r == Err::<Packet, QueryError>(QueryError::PacketUnderflow),
            data@.len() >= 5 ==> (r matches Ok(p) && p.kind == data@[4]
                && p.payload@ == data@.subrange(5, data@.len() as int)),
    {
        let mut reader = Reader::new(data);
        match reader.skip(4) {
            Ok(()) => {},
            Err(e) => return Err(e),
        }
        match reader.read_u8() {
            Ok(kind) => {
                let payload = reader.remaining_bytes();
                Ok(Packet { kind, payload })
            },
            Err(e) => Err(e),
        }
    }
}

/// One fragment of a split response.
pub struct SplitPacket {
    pub id: u32,
    pub total: u8,
    pub number: u8,
    pub size: u16,
    /// The declared (decompressed size, CRC32) when the payload is compressed.
    pub decompressed: Option<(u32, u32)>,
    pub payload: Vec<u8>,
}

/// Mathematical value of a fragment header and payload.
pub struct FragmentSpec {
    pub id: u32,
    pub total: u8,
    pub number: u8,
    pub size: u16,
    pub decompressed: Option<(u32, u32)>,
    pub payload: Seq<u8>,
}

impl SplitPacket {
    pub open spec fn view(&self) -> FragmentSpec {
        FragmentSpec {
            id: self.id,
            total: self.total,
            number: self.number,
            size: self.size,
            decompressed: self.decompressed,
            payload: self.payload@,
        }
    }
}

/// The compression flag: the top bit of the packet id.
pub open spec fn is_compressed(id: u32) -> bool {
    id >= 0x8000_0000
}

/// A fragment's header is consistent: its index lies below its total.
pub open spec fn fragment_fits(total: u8, number: u8) -> bool {
    number < total
}

/// Decoding of one split datagram, in the layout of `engine`.
pub open spec fn split_spec(engine: Engine, protocol: u8, s: Seq<u8>) -> Result<FragmentSpec, QueryError> {
    if s.len() < 9 {
        Err(QueryError::PacketUnderflow)
    } else {
        let id = le32(s, 4) as u32;
        match engine {
            Engine::GoldSrc(_) => {
                let total = s[8] & 0x0f;
                let number = s[8] >> 4;
                if !fragment_fits(total, number) {
                    Err(QueryError::PacketBad)
                } else {
                    Ok(FragmentSpec { id, total, number, size: 0, decompressed: None, payload: s.subrange(9, s.len() as int) })
                }
            },
            Engine::Source(_) => {
                let implicit = protocol == 7 && quirks_spec(engine).implicit_fragment_size;
                let size_end: int = if implicit { 10 } else { 12 };
                let end: int = if is_compressed(id) { size_end + 8 } else { size_end };
                if s.len() < end {
                    Err(QueryError::PacketUnderflow)
                } else if !fragment_fits(s[8], s[9]) {
                    Err(QueryError::PacketBad)
                } else {
                    Ok(FragmentSpec {
                        id,
                        total: s[8],
                        number: s[9],
                        size: if implicit { FIXED_FRAGMENT_SIZE } else { le16(s, 10) as u16 },
                        decompressed: if is_compressed(id) {
                            Some((le32(s, size_end) as u32, le32(s, size_end + 4) as u32))
                        } else {
                            None
                        },
                        payload: s.subrange(end, s.len() as int),
                    })
                }
            },
        }
    }
}

impl SplitPacket {
    /// Decodes one datagram of a split response.
    pub fn new(engine: &Engine, protocol: u8, data: Vec<u8>) -> (r: Result<SplitPacket, QueryError>)
        ensures
            match split_spec(*engine, protocol, data@) {
                Ok(f) => r matches Ok(p) && p@ == f,
                Err(e) => r matches Err(x) && x == e,
            },
    {
        let ghost s = data@;
        let mut reader = Reader::new(data);
        match reader.skip(4) {
            Ok(()) => {},
            Err(e) => return Err(e),
        }
        let id = match reader.read_u32() {
            Ok(v) => v,
            Err(e) => return Err(e),
        };
        match engine {
            Engine::GoldSrc(_) => {
                let b = match reader.read_u8() {
                    Ok(v) => v,
                    Err(e) => return Err(e),
                };
                let total = b & 0x0f;
                let number = b >> 4;
                if number >= total {
                    return Err(QueryError::PacketBad);
                }
                let payload = reader.remaining_bytes();
                Ok(SplitPacket { id, total, number, size: 0, decompressed: None, payload })
            },
            Engine::Source(_) => {
                let total = match reader.read_u8() {
                    Ok(v) => v,
                    Err(e) => return Err(e),
                };
                let number = match reader.read_u8() {
                    Ok(v) => v,
                    Err(e) => return Err(e),
                };
                let implicit = protocol == 7 && quirks_of(engine).implicit_fragment_size;
                let size = if implicit {
                    FIXED_FRAGMENT_SIZE
                } else {
                    match reader.read_u16() {
                        Ok(v) => v,
                        Err(e) => return Err(e),
                    }
                };
                let decompressed = if id >= 0x8000_0000 {
                    let dsize = match reader.read_u32() {
                        Ok(v) => v,
                        Err(e) => return Err(e),
                    };
                    let crc = match reader.read_u32() {
                        Ok(v) => v,
                        Err(e) => return Err(e),
                    };
                    Some((dsize, crc))
                } else {
                    None
                };
                if number >= total {
                    return Err(QueryError::PacketBad);
                }
                let payload = reader.remaining_bytes();
                Ok(SplitPacket { id, total, number, size, decompressed, payload })
            },
        }
    }
}

/// The index and payload of each fragment, in arrival order.
pub open spec fn fragments_view(f: Seq<SplitPacket>) -> Seq<(u8, Seq<u8>)> {
    f.map_values(|p: SplitPacket| (p.number, p.payload@))
}

/// Payloads of the fragments whose index is `v`, in arrival order.
pub open spec fn bucket(f: Seq<(u8, Seq<u8>)>, v: int) -> Seq<u8>
    decreases f.len(),
{
    if f.len() == 0 {
        Seq::empty()
    } else if f.last().0 == v {
        bucket(f.drop_last(), v) + f.last().1
    } else {
        bucket(f.drop_last(), v)
    }
}

/// Payloads of the fragments with index below `n`, ordered by index, ties in
/// arrival order.
pub open spec fn buckets_below(f: Seq<(u8, Seq<u8>)>, n: int) -> Seq<u8>
    decreases n,
{
    if n <= 0 {
        Seq::empty()
    } else {
        buckets_below(f, n - 1) + bucket(f, n - 1)
    }
}

/// The payload that fragments reassemble to: all of them, sorted by index.
pub open spec fn assembled(f: Seq<(u8, Seq<u8>)>) -> Seq<u8> {
    buckets_below(f, 256)
}

fn append_bytes(out: &mut Vec<u8>, src: &Vec<u8>)
    ensures
        final(out)@ == old(out)@ + src@,
{
    let mut i: usize = 0;
    let ghost start = out@;
    while i < src.len()
        invariant
            i <= src@.len(),
            out@ == start + src@.subrange(0, i as int),
        decreases src@.len() - i,
    {
        out.push(src[i]);
        i = i + 1;
        assert(out@ =~= start + src@.subrange(0, i as int));
    }
    assert(src@.subrange(0, src@.len() as int) =~= src@);
}

/// Concatenates the fragments' payloads in ascending order of their index;
/// fragments with equal index keep their arrival order.
pub fn reassemble(fragments: &Vec<SplitPacket>) -> (r: Vec<u8>)
    ensures
        r@ == assembled(fragments_view(fragments@)),
{
    let ghost fv = fragments_view(fragments@);
    let mut out: Vec<u8> = Vec::new();
    let mut v: u16 = 0;
    while v < 256
        invariant
            v <= 256,
            fv == fragments_view(fragments@),
            out@ == buckets_below(fv, v as int),
        decreases 256 - v,
    {
        let ghost before = out@;
        let mut i: usize = 0;
        while i < fragments.len()
            invariant
                i <= fragments@.len(),
                v < 256,
                fv == fragments_view(fragments@),
                out@ == before + bucket(fv.take(i as int), v as int),
            decreases fragments@.len() - i,
        {
            assert(fv.take(i as int + 1).drop_last() =~= fv.take(i as int));
            if fragments[i].number as u16 == v {
                append_bytes(&mut out, &fragments[i].payload);
            }
            i = i + 1;
            assert(before + bucket(fv.take(i as int), v as int) =~= out@);
        }
        assert(fv.take(fragments@.len() as int) =~= fv);
        v = v + 1;
        assert(out@ =~= buckets_below(fv, v as int));
    }
    out
}

/// The fragments have pairwise distinct indices.
pub open spec fn distinct_indices(f: Seq<(u8, Seq<u8>)>) -> bool {
    forall|i: int, j: int| 0 <= i < f.len() && 0 <= j < f.len() && i != j ==> f[i].0 != f[j].0
}

/// Each fragment of `a` is in `b`.
pub open spec fn included(a: Seq<(u8, Seq<u8>)>, b: Seq<(u8, Seq<u8>)>) -> bool {
    forall|i: int| 0 <= i < a.len() ==> exists|j: int| 0 <= j < b.len() && b[j] == #[trigger] a[i]
}

proof fn lemma_bucket_distinct(f: Seq<(u8, Seq<u8>)>, v: int)
    requires
        distinct_indices(f),
    ensures
        forall|i: int| 0 <= i < f.len() && f[i].0 == v ==> bucket(f, v) == #[trigger] f[i].1,
        (forall|i: int| 0 <= i < f.len() ==> #[trigger] f[i].0 != v) ==> bucket(f, v) == Seq::<u8>::empty(),
    decreases f.len(),
{
    if f.len() > 0 {
        let g = f.drop_last();
        assert(distinct_indices(g));
        lemma_bucket_distinct(g, v);
        if f.last().0 == v {
            assert forall|i: int| 0 <= i < g.len() implies #[trigger] g[i].0 != v by {
                assert(f[i] == g[i]);
            }
            assert(bucket(f, v) =~= f.last().1);
        } else {
            assert forall|i: int| 0 <= i < f.len() && f[i].0 == v implies bucket(f, v) == #[trigger] f[i].1 by {
                assert(i < g.len());
                assert(g[i] == f[i]);
            }
        }
    }
}

proof fn lemma_buckets_equal(a: Seq<(u8, Seq<u8>)>, b: Seq<(u8, Seq<u8>)>, n: int)
    requires
        forall|v: int| 0 <= v < n ==> bucket(a, v) == bucket(b, v),
    ensures
        buckets_below(a, n) == buckets_below(b, n),
    decreases n,
{
    if n > 0 {
        lemma_buckets_equal(a, b, n - 1);
    }
}

/// Reassembly does not depend on arrival order: two arrivals of the same
/// fragments, with distinct indices, reassemble to the same bytes.
pub proof fn lemma_reassembly_order_independent(a: Seq<(u8, Seq<u8>)>, b: Seq<(u8, Seq<u8>)>)
    requires
        distinct_indices(a),
        distinct_indices(b),
        included(a, b),
        included(b, a),
    ensures
        assembled(a) == assembled(b),
{
    assert forall|v: int| 0 <= v < 256 implies bucket(a, v) == bucket(b, v) by {
        lemma_bucket_distinct(a, v);
        lemma_bucket_distinct(b, v);
        if exists|i: int| 0 <= i < a.len() && a[i].0 == v {
            let i = choose|i: int| 0 <= i < a.len() && a[i].0 == v;
            let j = choose|j: int| 0 <= j < b.len() && b[j] == a[i];
            assert(b[j] == a[i]);
            assert(bucket(a, v) == a[i].1);
            assert(b[j].0 == v);
            assert(bucket(b, v) == b[j].1);
        } else {
            assert forall|i: int| 0 <= i < a.len() implies #[trigger] a[i].0 != v by {}
            assert(bucket(a, v) == Seq::<u8>::empty());
            assert forall|j: int| 0 <= j < b.len() implies #[trigger] b[j].0 != v by {
                let i = choose|i: int| 0 <= i < a.len() && a[i] == b[j];
                assert(a[i] == b[j]);
            }
            assert(bucket(b, v) == Seq::<u8>::empty());
        }
    }
    lemma_buckets_equal(a, b, 256);
}

} // verus!
