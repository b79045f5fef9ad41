//! The cursor over one remote peer's stream.
use vstd::prelude::*;

use crate::bytes::{lemma_split_at, push_bytes, read_array};
use crate::error::{FormatError, StreamError};
use crate::varint::{lemma_parse_varint_at, parse_varint, read_varint, varint_bytes, write_varint};

verus! {

/// A receive stream as a value: the peer stream's identifier and how far it
/// has been read.
pub struct RecvStreamView {
    pub id: Seq<u8>,
    pub position: u64,
}

/// The cursor over one remote peer's stream. Its position never goes down.
#[derive(Debug, Clone, Copy, PartialEq, Eq)]
pub struct RecvStream {
    id: [u8; 16],
    position: u64,
}

impl View for RecvStream {
    type V = RecvStreamView;

    closed spec fn view(&self) -> RecvStreamView {
        RecvStreamView { id: self.id@, position: self.position }
    }
}

/// The record as stored: the 16 identifier bytes, then the position.
pub open spec fn recv_stream_bytes(r: RecvStreamView) -> Seq<u8> {
    r.id + varint_bytes(r.position)
}

/// Reads a receive stream record that starts at offset `p` of `s`.
pub open spec fn parse_recv_stream(s: Seq<u8>, p: int) -> Result<(RecvStreamView, int), FormatError> {
    if p < 0 || p + 16 > s.len() {
        Err(FormatError::Truncated)
    } else {
        match parse_varint(s, p + 16) {
            Ok((pos, q)) => Ok((RecvStreamView { id: s.subrange(p, p + 16), position: pos }, q)),
            Err(e) => Err(e),
        }
    }
}

/// Reads a buffer that holds exactly one receive stream record.
pub open spec fn decode_recv_stream(s: Seq<u8>) -> Result<RecvStreamView, FormatError> {
    match parse_recv_stream(s, 0) {
        Ok((r, q)) => if q == s.len() {
            Ok(r)
        } else {
            Err(FormatError::TrailingBytes)
        },
        Err(e) => Err(e),
    }
}

/// A receive stream record written at offset `p` of a buffer reads back from there.
pub proof fn lemma_parse_recv_stream_at(s: Seq<u8>, p: int, r: RecvStreamView)
    requires
        0 <= p,
        r.id.len() == 16,
        p + recv_stream_bytes(r).len() <= s.len(),
        s.subrange(p, p + recv_stream_bytes(r).len()) == recv_stream_bytes(r),
    ensures
        parse_recv_stream(s, p) == Ok::<(RecvStreamView, int), FormatError>((r, p + recv_stream_bytes(r).len())),
{
    lemma_split_at(s, p, r.id, varint_bytes(r.position));
    lemma_parse_varint_at(s, p + 16, r.position);
}

/// A cursor stored on its own reads back as it was.
pub proof fn lemma_recv_stream_round_trip(r: RecvStreamView)
    requires
        r.id.len() == 16,
    ensures
        decode_recv_stream(recv_stream_bytes(r)) == Ok::<RecvStreamView, FormatError>(r),
{
    let s = recv_stream_bytes(r);
    assert(s.subrange(0, s.len() as int) =~= s);
    lemma_parse_recv_stream_at(s, 0, r);
}

/// What `advance` does to a cursor.
pub open spec fn advance_spec(r: RecvStreamView, new_position: u64) -> Result<RecvStreamView, StreamError> {
    if new_position < r.position {
        Err(StreamError::PositionRegression)
    } else {
        Ok(RecvStreamView { id: r.id, position: new_position })
    }
}

/// Applies `advance` with each position of `ps` in turn, stopping at the first error.
pub open spec fn advance_all(r: RecvStreamView, ps: Seq<u64>) -> Result<RecvStreamView, StreamError>
    decreases ps.len(),
{
    if ps.len() == 0 {
        Ok(r)
    } else {
        match advance_all(r, ps.drop_last()) {
            Err(e) => Err(e),
            Ok(v) => advance_spec(v, ps.last()),
        }
    }
}

/// Whether `ps` never goes down.
pub open spec fn non_decreasing(ps: Seq<u64>) -> bool {
    forall|i: int, j: int| 0 <= i <= j < ps.len() ==> ps[i] <= ps[j]
}

/// A cursor only moves forward: a position below the current one is refused
/// and leaves it as it was, and any other becomes the new position.
pub proof fn lemma_advance_monotonic(r: RecvStreamView, p: u64)
    ensures
        p < r.position ==> advance_spec(r, p) == Err::<RecvStreamView, StreamError>(StreamError::PositionRegression),
        p >= r.position ==> advance_spec(r, p) == Ok::<RecvStreamView, StreamError>(RecvStreamView { id: r.id, position: p }),
{
}

/// Advancing through positions that never go down, starting at or above the
/// current one, always succeeds and ends at the last of them.
pub proof fn lemma_advance_all_non_decreasing(r: RecvStreamView, ps: Seq<u64>)
    requires
        non_decreasing(ps),
        ps.len() > 0 ==> r.position <= ps[0],
    ensures
        advance_all(r, ps) == Ok::<RecvStreamView, StreamError>(
            RecvStreamView { id: r.id, position: if ps.len() == 0 { r.position } else { ps.last() } },
        ),
    decreases ps.len(),
{
    if ps.len() > 0 {
        let init = ps.drop_last();
        assert(non_decreasing(init)) by {
            assert forall|i: int, j: int| 0 <= i <= j < init.len() implies init[i] <= init[j] by {
                assert(init[i] == ps[i] && init[j] == ps[j]);
            }
        }
        if init.len() > 0 {
            assert(init[0] == ps[0]);
        }
        lemma_advance_all_non_decreasing(r, init);
        if init.len() > 0 {
            assert(init.last() == ps[ps.len() - 2]);
        }
    }
}

proof fn lemma_advance_all_fails_on(r: RecvStreamView, ps: Seq<u64>, m: int, n: int)
    requires
        0 <= m <= n <= ps.len(),
        advance_all(r, ps.take(m)) is Err,
    ensures
        advance_all(r, ps.take(n)) == advance_all(r, ps.take(m)),
    decreases n,
{
    if m < n {
        lemma_advance_all_fails_on(r, ps, m, n - 1);
        assert(ps.take(n).drop_last() =~= ps.take(n - 1));
    }
}

/// After advancing through positions that never go down, the cursor that
/// `sync` stores reads back at the last of them.
pub proof fn lemma_advance_then_sync(r: RecvStreamView, ps: Seq<u64>)
    requires
        r.id.len() == 16,
        non_decreasing(ps),
        ps.len() > 0,
        r.position <= ps[0],
    ensures
        advance_all(r, ps) is Ok,
        decode_recv_stream(recv_stream_bytes(advance_all(r, ps)->Ok_0)) == Ok::<RecvStreamView, FormatError>(
            RecvStreamView { id: r.id, position: ps.last() },
        ),
{
    lemma_advance_all_non_decreasing(r, ps);
    lemma_recv_stream_round_trip(RecvStreamView { id: r.id, position: ps.last() });
}

impl RecvStream {
    /// A new cursor at `position` over the stream `id`.
    pub fn new(id: [u8; 16], position: u64) -> (r: RecvStream)
        ensures
            r@ == (RecvStreamView { id: id@, position }),
    {
        RecvStream { id, position }
    }

    /// The identifier of the peer's stream.
    pub fn id(&self) -> (r: [u8; 16])
        ensures
            r@ == self@.id,
    {
        self.id
    }

    /// How far the stream has been read.
    pub fn position(&self) -> (r: u64)
        ensures
            r == self@.position,
    {
        self.position
    }

    /// Moves the cursor to `new_position`, which must not be below the current one.
    pub fn advance(&mut self, new_position: u64) -> (r: Result<(), StreamError>)
        ensures
            match advance_spec(old(self)@, new_position) {
                Ok(v) => r is Ok && final(self)@ == v,
                Err(e) => r == Err::<(), StreamError>(e) && final(self)@ == old(self)@,
            },
    {
        if new_position < self.position {
            return Err(StreamError::PositionRegression);
        }
        self.position = new_position;
        Ok(())
    }

    /// Moves the cursor to each position of `positions` in turn, stopping at
    /// the first one that would move it backwards.
    pub fn advance_through(&mut self, positions: &[u64]) -> (r: Result<(), StreamError>)
        ensures
            match advance_all(old(self)@, positions@) {
                Ok(v) => r is Ok && final(self)@ == v,
                Err(e) => r == Err::<(), StreamError>(e) && exists|k: int|
                    0 <= k < positions@.len() && advance_all(old(self)@, #[trigger] positions@.take(k)) == Ok::<
                        RecvStreamView,
                        StreamError,
                    >(final(self)@),
            },
    {
        let ghost ps = positions@;
        let ghost start = self@;
        let mut i: usize = 0;
        assert(ps.take(0) =~= Seq::<u64>::empty());
        while i < positions.len()
            invariant
                ps == positions@,
                start == old(self)@,
                i <= ps.len(),
                advance_all(start, ps.take(i as int)) == Ok::<RecvStreamView, StreamError>(self@),
            decreases ps.len() - i,
        {
            let ghost before = self@;
            proof {
                assert(ps.take(i + 1).drop_last() =~= ps.take(i as int));
            }
            match self.advance(positions[i]) {
                Ok(()) => {},
                Err(e) => {
                    proof {
                        lemma_advance_all_fails_on(start, ps, i + 1, ps.len() as int);
                        assert(ps.take(ps.len() as int) =~= ps);
                        assert(self@ == before);
                    }
                    return Err(e);
                },
            }
            i = i + 1;
        }
        assert(ps.take(ps.len() as int) =~= ps);
        Ok(())
    }

    /// Appends the record's encoding to `out`.
    pub fn encode_into(&self, out: &mut Vec<u8>)
        ensures
            final(out)@ == old(out)@ + recv_stream_bytes(self@),
            self@.id.len() == 16,
    {
        let ghost start = out@;
        push_bytes(out, &self.id);
        write_varint(out, self.position);
        assert(out@ =~= start + recv_stream_bytes(self@));
    }

    /// The bytes that persist this cursor on its own, so that each peer's
    /// progress is durable independently of the others.
    pub fn sync(&self) -> (r: Vec<u8>)
        ensures
            r@ == recv_stream_bytes(self@),
            self@.id.len() == 16,
    {
        let mut out: Vec<u8> = Vec::new();
        self.encode_into(&mut out);
        assert(out@ =~= recv_stream_bytes(self@));
        out
    }

    /// Reads a receive stream record that starts at offset `p` of `s`.
    pub fn parse(s: &[u8], p: usize) -> (r: Result<(RecvStream, usize), FormatError>)
        ensures
            match r {
                Ok((v, q)) => parse_recv_stream(s@, p as int) == Ok::<(RecvStreamView, int), FormatError>((v@, q as int)),
                Err(e) => parse_recv_stream(s@, p as int) == Err::<(RecvStreamView, int), FormatError>(e),
            },
    {
        if p > s.len() || 16 > s.len() - p {
            return Err(FormatError::Truncated);
        }
        let id: [u8; 16] = read_array(s, p);
        match read_varint(s, p + 16) {
            Ok((position, q)) => Ok((RecvStream { id, position }, q)),
            Err(e) => Err(e),
        }
    }

    /// Reads a buffer that holds exactly one receive stream record, as `sync` wrote it.
    pub fn decode(s: &[u8]) -> (r: Result<RecvStream, FormatError>)
        ensures
            match r {
                Ok(v) => decode_recv_stream(s@) == Ok::<RecvStreamView, FormatError>(v@),
                Err(e) => decode_recv_stream(s@) == Err::<RecvStreamView, FormatError>(e),
            },
    {
        match RecvStream::parse(s, 0) {
            Ok((v, q)) => if q == s.len() {
                Ok(v)
            } else {
                Err(FormatError::TrailingBytes)
            },
            Err(e) => Err(e),
        }
    }
}

} // verus!
