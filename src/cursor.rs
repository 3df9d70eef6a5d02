use vstd::prelude::*;
use crate::types::QueryError;

verus! {

/// What `String::from_utf8` makes of a byte sequence: the characters when the
/// bytes are valid UTF-8, nothing otherwise.
pub uninterp spec fn utf8_decode(b: Seq<u8>) -> Option<Seq<char>>;

/// Every byte is ASCII.
pub open spec fn all_ascii(b: Seq<u8>) -> bool {
    forall|i: int| 0 <= i < b.len() ==> #[trigger] b[i] < 0x80
}

/// The characters of ASCII bytes, one for each byte.
pub open spec fn ascii_chars(b: Seq<u8>) -> Seq<char> {
    b.map_values(|x: u8| x as char)
}

/// Relies on `String::from_utf8`: succeeds exactly on valid UTF-8, the
/// characters depend on the bytes alone, and ASCII bytes are the characters
/// of the same code.
#[verifier::external_body]
fn string_from_utf8(b: Vec<u8>) -> (r: Option<String>)
    ensures
        r is None <==> utf8_decode(b@) is None,
        r matches Some(s) ==> utf8_decode(b@) == Some(s@),
        all_ascii(b@) ==> r is Some,
        all_ascii(b@) ==> (r matches Some(s) ==> s@ == ascii_chars(b@)),
{
    String::from_utf8(b).ok()
}

pub open spec fn le16(s: Seq<u8>, i: int) -> int {
    s[i] as int + 0x100 * s[i + 1]
}

pub open spec fn le32(s: Seq<u8>, i: int) -> int {
    le16(s, i) + 0x10000 * le16(s, i + 2)
}

pub open spec fn le64(s: Seq<u8>, i: int) -> int {
    le32(s, i) + 0x1_0000_0000 * le32(s, i + 4)
}

/// Index of the first zero byte at or after `p`, or the length when none is.
pub open spec fn first_zero(s: Seq<u8>, p: int) -> int
    decreases s.len() - p,
{
    if p >= s.len() {
        s.len() as int
    } else if s[p] == 0 {
        p
    } else {
        first_zero(s, p + 1)
    }
}

pub proof fn lemma_first_zero_bounds(s: Seq<u8>, p: int)
    requires
        0 <= p <= s.len(),
    ensures
        p <= first_zero(s, p) <= s.len(),
        first_zero(s, p) < s.len() ==> s[first_zero(s, p)] == 0,
        forall|k: int| p <= k < first_zero(s, p) ==> s[k] != 0,
    decreases s.len() - p,
{
    if p < s.len() && s[p] != 0 {
        lemma_first_zero_bounds(s, p + 1);
    }
}

/// A string read at `p` ends after `p`, on a terminator within the payload.
pub proof fn lemma_string_at_advances(s: Seq<u8>, p: int)
    requires
        0 <= p,
    ensures
        string_at(s, p) matches Ok((t, q)) ==> p < q <= s.len(),
{
    if p <= s.len() {
        lemma_first_zero_bounds(s, p);
    }
}

/// Outcome of reading a null-terminated UTF-8 string at `p`: the characters
/// and the position after the terminator.
pub open spec fn string_at(s: Seq<u8>, p: int) -> Result<(Seq<char>, int), QueryError> {
    let z = first_zero(s, p);
    if z >= s.len() {
        Err(QueryError::PacketUnderflow)
    } else {
        match utf8_decode(s.subrange(p, z)) {
            Some(t) => Ok((t, z + 1)),
            None => Err(QueryError::PacketBad),
        }
    }
}

/// A little-endian cursor over a received payload.
pub struct Reader {
    pub data: Vec<u8>,
    pub pos: usize,
}

impl Reader {
    pub open spec fn wf(&self) -> bool {
        self.pos <= self.data@.len()
    }

    pub open spec fn rest(&self) -> Seq<u8> {
        self.data@.subrange(self.pos as int, self.data@.len() as int)
    }

    /// True when `n` more bytes can be read.
    pub open spec fn has(&self, n: int) -> bool {
        self.pos + n <= self.data@.len()
    }

    pub fn new(data: Vec<u8>) -> (r: Reader)
        ensures
            r.wf(),
            r.data@ == data@,
            r.pos == 0,
    {
        Reader { data, pos: 0 }
    }

    /// Number of unread bytes.
    pub fn remaining(&self) -> (r: usize)
        requires
            self.wf(),
        ensures
            r == self.data@.len() - self.pos,
    {
        self.data.len() - self.pos
    }

    pub fn read_u8(&mut self) -> (r: Result<u8, QueryError>)
        requires
            old(self).wf(),
        ensures
            final(self).wf(),
            final(self).data@ == old(self).data@,
            old(self).has(1) ==> r == Ok::<u8, QueryError>(old(self).data@[old(self).pos as int])
                && final(self).pos == old(self).pos + 1,
            !old(self).has(1) ==> r == Err::<u8, QueryError>(QueryError::PacketUnderflow)
                && final(self).pos == old(self).pos,
    {
        if self.pos < self.data.len() {
            let b = self.data[self.pos];
            self.pos = self.pos + 1;
            Ok(b)
        } else {
            Err(QueryError::PacketUnderflow)
        }
    }

    pub fn read_u16(&mut self) -> (r: Result<u16, QueryError>)
        requires
            old(self).wf(),
        ensures
            final(self).wf(),
            final(self).data@ == old(self).data@,
            old(self).has(2) ==> r == Ok::<u16, QueryError>(le16(old(self).data@, old(self).pos as int) as u16)
                && final(self).pos == old(self).pos + 2,
            !old(self).has(2) ==> r == Err::<u16, QueryError>(QueryError::PacketUnderflow)
                && final(self).pos == old(self).pos,
    {
        if self.data.len() - self.pos >= 2 {
            let p = self.pos;
            let v: u16 = self.data[p] as u16 + 0x100 * (self.data[p + 1] as u16);
            self.pos = p + 2;
            Ok(v)
        } else {
            Err(QueryError::PacketUnderflow)
        }
    }

    pub fn read_u32(&mut self) -> (r: Result<u32, QueryError>)
        requires
            old(self).wf(),
        ensures
            final(self).wf(),
            final(self).data@ == old(self).data@,
            old(self).has(4) ==> r == Ok::<u32, QueryError>(le32(old(self).data@, old(self).pos as int) as u32)
                && final(self).pos == old(self).pos + 4,
            !old(self).has(4) ==> r == Err::<u32, QueryError>(QueryError::PacketUnderflow)
                && final(self).pos == old(self).pos,
    {
        if self.data.len() - self.pos >= 4 {
            let p = self.pos;
            let lo: u32 = self.data[p] as u32 + 0x100 * (self.data[p + 1] as u32);
            let hi: u32 = self.data[p + 2] as u32 + 0x100 * (self.data[p + 3] as u32);
            self.pos = p + 4;
            Ok(lo + 0x10000 * hi)
        } else {
            Err(QueryError::PacketUnderflow)
        }
    }

    pub fn read_u64(&mut self) -> (r: Result<u64, QueryError>)
        requires
            old(self).wf(),
        ensures
            final(self).wf(),
            final(self).data@ == old(self).data@,
            old(self).has(8) ==> r == Ok::<u64, QueryError>(le64(old(self).data@, old(self).pos as int) as u64)
                && final(self).pos == old(self).pos + 8,
            !old(self).has(8) ==> r == Err::<u64, QueryError>(QueryError::PacketUnderflow)
                && final(self).pos == old(self).pos,
    {
        if self.data.len() - self.pos >= 8 {
            let lo = self.read_u32();
            let hi = self.read_u32();
            match (lo, hi) {
                (Ok(lo), Ok(hi)) => Ok(lo as u64 + 0x1_0000_0000 * (hi as u64)),
                _ => Err(QueryError::PacketUnderflow),
            }
        } else {
            Err(QueryError::PacketUnderflow)
        }
    }

    pub fn read_i32(&mut self) -> (r: Result<i32, QueryError>)
        requires
            old(self).wf(),
        ensures
            final(self).wf(),
            final(self).data@ == old(self).data@,
            old(self).has(4) ==> r == Ok::<i32, QueryError>((le32(old(self).data@, old(self).pos as int) as u32) as i32)
                && final(self).pos == old(self).pos + 4,
            !old(self).has(4) ==> r == Err::<i32, QueryError>(QueryError::PacketUnderflow)
                && final(self).pos == old(self).pos,
    {
        match self.read_u32() {
            Ok(v) => Ok(v as i32),
            Err(e) => Err(e),
        }
    }

    /// Moves past `n` bytes.
    pub fn skip(&mut self, n: usize) -> (r: Result<(), QueryError>)
        requires
            old(self).wf(),
        ensures
            final(self).wf(),
            final(self).data@ == old(self).data@,
            old(self).has(n as int) ==> r is Ok && final(self).pos == old(self).pos + n,
            !old(self).has(n as int) ==> r == Err::<(), QueryError>(QueryError::PacketUnderflow)
                && final(self).pos == old(self).pos,
    {
        if self.data.len() - self.pos >= n {
            self.pos = self.pos + n;
            Ok(())
        } else {
            Err(QueryError::PacketUnderflow)
        }
    }

    /// Reads a null-terminated UTF-8 string; a string without terminator
    /// runs past the payload.
    pub fn read_string(&mut self) -> (r: Result<String, QueryError>)
        requires
            old(self).wf(),
        ensures
            final(self).wf(),
            final(self).data@ == old(self).data@,
            match string_at(old(self).data@, old(self).pos as int) {
                Ok((t, q)) => r matches Ok(s) && s@ == t && final(self).pos == q,
                Err(e) => r == Err::<String, QueryError>(e) && final(self).pos == old(self).pos,
            },
            r is Ok ==> final(self).pos > old(self).pos,
            first_zero(old(self).data@, old(self).pos as int) < old(self).data@.len() && all_ascii(
                old(self).data@.subrange(old(self).pos as int, first_zero(old(self).data@, old(self).pos as int)),
            ) ==> (r matches Ok(s) && s@ == ascii_chars(
                old(self).data@.subrange(old(self).pos as int, first_zero(old(self).data@, old(self).pos as int)),
            )),
    {
        let ghost s = self.data@;
        proof {
            lemma_first_zero_bounds(s, self.pos as int);
        }
        let mut j: usize = self.pos;
        let mut out: Vec<u8> = Vec::new();
        while j < self.data.len() && self.data[j] != 0
            invariant
                self.wf(),
                self.data@ == s,
                self.pos <= j <= s.len(),
                first_zero(s, self.pos as int) == first_zero(s, j as int),
                out@ == s.subrange(self.pos as int, j as int),
            decreases s.len() - j,
        {
            out.push(self.data[j]);
            j = j + 1;
            assert(out@ =~= s.subrange(self.pos as int, j as int));
        }
        if j >= self.data.len() {
            return Err(QueryError::PacketUnderflow);
        }
        match string_from_utf8(out) {
            Some(text) => {
                self.pos = j + 1;
                Ok(text)
            },
            None => Err(QueryError::PacketBad),
        }
    }

    /// Copies out the unread bytes and moves to the end.
    pub fn remaining_bytes(&mut self) -> (r: Vec<u8>)
        requires
            old(self).wf(),
        ensures
            final(self).wf(),
            final(self).data@ == old(self).data@,
            r@ == old(self).rest(),
            final(self).pos == old(self).data@.len(),
    {
        let mut out: Vec<u8> = Vec::new();
        let start = self.pos;
        while self.pos < self.data.len()
            invariant
                self.wf(),
                self.data@ == old(self).data@,
                start <= self.pos,
                start == old(self).pos,
                out@ == self.data@.subrange(start as int, self.pos as int),
            decreases self.data@.len() - self.pos,
        {
            out.push(self.data[self.pos]);
            self.pos = self.pos + 1;
            assert(out@ =~= self.data@.subrange(start as int, self.pos as int));
        }
        out
    }
}

} // verus!
