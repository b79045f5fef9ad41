//! The persisted state of one conversation and its storage format:
//! the receive stream count, each receive stream, the send stream, then the
//! key window table.
use vstd::prelude::*;

use crate::bytes::lemma_split_at;
use crate::error::{FormatError, KeyRatchetError, StreamError};
use crate::key_table::{
    can_append, covers, key_table_bytes, key_windows_valid, lemma_parse_key_table_at,
    parse_key_table, table_wf, KeyTable, KeyWindow, KeyWindowView,
};
use crate::recv_stream::{
    advance_spec, lemma_parse_recv_stream_at, parse_recv_stream, recv_stream_bytes, RecvStream,
    RecvStreamView,
};
use crate::send_stream::{
    lemma_parse_send_stream_at, parse_send_stream, send_stream_bytes, send_stream_valid,
    RecipientView, SendStream, SendStreamView,
};
use crate::varint::{lemma_parse_varint_at, parse_varint, read_varint, varint_bytes, write_varint};

verus! {

/// An interaction as a value.
pub struct InteractionView {
    pub id: Seq<u8>,
    pub send: SendStreamView,
    pub recv: Seq<RecvStreamView>,
    pub keys: Seq<KeyWindowView>,
}

/// No two receive streams share an identifier.
pub open spec fn distinct_ids(rs: Seq<RecvStreamView>) -> bool {
    forall|i: int, j: int| 0 <= i < rs.len() && 0 <= j < rs.len() && i != j ==> #[trigger] rs[i].id != #[trigger] rs[j].id
}

/// The invariant of an interaction: distinct receive streams and a well-formed
/// key window table.
pub open spec fn interaction_wf(x: InteractionView) -> bool {
    distinct_ids(x.recv) && table_wf(x.keys)
}

/// Receive streams as stored, one after the other.
pub open spec fn recv_streams_bytes(rs: Seq<RecvStreamView>) -> Seq<u8>
    decreases rs.len(),
{
    if rs.len() == 0 {
        Seq::empty()
    } else {
        recv_streams_bytes(rs.drop_last()) + recv_stream_bytes(rs.last())
    }
}

/// The interaction as stored. Its identifier is not part of the bytes: it is
/// the name under which they are stored.
pub open spec fn interaction_bytes(x: InteractionView) -> Seq<u8> {
    varint_bytes(x.recv.len() as u64) + recv_streams_bytes(x.recv) + send_stream_bytes(x.send)
        + key_table_bytes(x.keys)
}

/// Reads `n` receive streams that start at offset `p` of `s`.
pub open spec fn parse_recv_streams(s: Seq<u8>, p: int, n: nat) -> Result<(Seq<RecvStreamView>, int), FormatError>
    decreases n,
{
    if n == 0 {
        Ok((Seq::empty(), p))
    } else {
        match parse_recv_streams(s, p, (n - 1) as nat) {
            Err(e) => Err(e),
            Ok((rs, q)) => match parse_recv_stream(s, q) {
                Err(e) => Err(e),
                Ok((r, k)) => Ok((rs.push(r), k)),
            },
        }
    }
}

/// What `load` makes of the bytes `s` stored under `id`.
pub open spec fn load_spec(id: Seq<u8>, s: Seq<u8>) -> Result<InteractionView, FormatError> {
    match parse_varint(s, 0) {
        Err(e) => Err(e),
        Ok((n, q)) => match parse_recv_streams(s, q, n as nat) {
            Err(e) => Err(e),
            Ok((rs, k)) => if !distinct_ids(rs) {
                Err(FormatError::DuplicatePeer)
            } else {
                match parse_send_stream(s, k) {
                    Err(e) => Err(e),
                    Ok((ss, m)) => match parse_key_table(s, m) {
                        Err(e) => Err(e),
                        Ok((t, e)) => if e != s.len() {
                            Err(FormatError::TrailingBytes)
                        } else {
                            Ok(InteractionView { id, send: ss, recv: rs, keys: t })
                        },
                    },
                }
            },
        },
    }
}

/// The sizes that a stored interaction can hold, besides its invariant.
pub open spec fn interaction_valid(x: InteractionView) -> bool {
    &&& interaction_wf(x)
    &&& x.recv.len() <= u64::MAX
    &&& forall|i: int| 0 <= i < x.recv.len() ==> (#[trigger] x.recv[i]).id.len() == 16
    &&& send_stream_valid(x.send)
    &&& key_windows_valid(x.keys)
}

/// Receive streams written at offset `p` of a buffer read back from there.
pub proof fn lemma_parse_recv_streams_at(s: Seq<u8>, p: int, rs: Seq<RecvStreamView>)
    requires
        0 <= p,
        forall|i: int| 0 <= i < rs.len() ==> (#[trigger] rs[i]).id.len() == 16,
        p + recv_streams_bytes(rs).len() <= s.len(),
        s.subrange(p, p + recv_streams_bytes(rs).len()) == recv_streams_bytes(rs),
    ensures
        parse_recv_streams(s, p, rs.len()) == Ok::<(Seq<RecvStreamView>, int), FormatError>(
            (rs, p + recv_streams_bytes(rs).len()),
        ),
    decreases rs.len(),
{
    if rs.len() > 0 {
        let init = rs.drop_last();
        assert forall|i: int| 0 <= i < init.len() implies (#[trigger] init[i]).id.len() == 16 by {
            assert(init[i] == rs[i]);
        }
        lemma_split_at(s, p, recv_streams_bytes(init), recv_stream_bytes(rs.last()));
        lemma_parse_recv_streams_at(s, p, init);
        lemma_parse_recv_stream_at(s, p + recv_streams_bytes(init).len(), rs.last());
        assert(init.push(rs.last()) =~= rs);
    } else {
        assert(rs =~= Seq::<RecvStreamView>::empty());
    }
}

/// Loading what was saved gives back the same interaction, field for field.
pub proof fn lemma_load_save(x: InteractionView)
    requires
        interaction_valid(x),
    ensures
        load_spec(x.id, interaction_bytes(x)) == Ok::<InteractionView, FormatError>(x),
{
    let s = interaction_bytes(x);
    let c = varint_bytes(x.recv.len() as u64);
    let a = recv_streams_bytes(x.recv);
    let b = send_stream_bytes(x.send);
    let k = key_table_bytes(x.keys);
    assert(s.subrange(0, s.len() as int) =~= s);
    lemma_split_at(s, 0, c + a + b, k);
    lemma_split_at(s, 0, c + a, b);
    lemma_split_at(s, 0, c, a);
    lemma_parse_varint_at(s, 0, x.recv.len() as u64);
    lemma_parse_recv_streams_at(s, c.len() as int, x.recv);
    lemma_parse_send_stream_at(s, (c.len() + a.len()) as int, x.send);
    lemma_parse_key_table_at(s, (c.len() + a.len() + b.len()) as int, x.keys);
}

proof fn lemma_parse_recv_streams_fails_on(s: Seq<u8>, p: int, m: nat, n: nat)
    requires
        m <= n,
        parse_recv_streams(s, p, m) is Err,
    ensures
        parse_recv_streams(s, p, n) == parse_recv_streams(s, p, m),
    decreases n,
{
    if m < n {
        lemma_parse_recv_streams_fails_on(s, p, m, (n - 1) as nat);
    }
}

/// Whether `a` and `b` hold the same bytes.
fn same_id(a: &[u8; 16], b: &[u8; 16]) -> (r: bool)
    ensures
        r == (a@ == b@),
{
    let mut i: usize = 0;
    while i < 16
        invariant
            i <= 16,
            a@.len() == 16,
            b@.len() == 16,
            forall|k: int| 0 <= k < i ==> a@[k] == b@[k],
        decreases 16 - i,
    {
        if a[i] != b[i] {
            return false;
        }
        i = i + 1;
    }
    assert(a@ =~= b@);
    true
}

/// The index, below `upto`, of the receive stream with identifier `id`.
fn find_peer(streams: &Vec<RecvStream>, upto: usize, id: &[u8; 16]) -> (r: Option<usize>)
    requires
        upto <= streams@.len(),
    ensures
        match r {
            Some(i) => i < upto && streams@[i as int]@.id == id@,
            None => forall|k: int| 0 <= k < upto ==> (#[trigger] streams@[k])@.id != id@,
        },
{
    let mut i: usize = 0;
    while i < upto
        invariant
            i <= upto <= streams@.len(),
            forall|k: int| 0 <= k < i ==> (#[trigger] streams@[k])@.id != id@,
        decreases upto - i,
    {
        let other = streams[i].id();
        if same_id(&other, id) {
            return Some(i);
        }
        i = i + 1;
    }
    None
}

/// The persisted state of one conversation.
#[derive(Debug)]
pub struct Interaction {
    id: [u8; 16],
    send_stream: SendStream,
    recv_streams: Vec<RecvStream>,
    recv_keys: KeyTable,
}

impl View for Interaction {
    type V = InteractionView;

    closed spec fn view(&self) -> InteractionView {
        InteractionView {
            id: self.id@,
            send: self.send_stream@,
            recv: self.recv_streams@.map_values(|r: RecvStream| r@),
            keys: self.recv_keys@,
        }
    }
}

impl Interaction {
    #[verifier::type_invariant]
    spec fn inv(&self) -> bool {
        distinct_ids(self@.recv)
    }

    /// Brings the invariant of `self` into the proof at hand.
    fn wf(&self)
        ensures
            interaction_wf(self@),
    {
        proof {
            use_type_invariant(self);
        }
        self.recv_keys.len();
    }

    /// Moves the value out of `self`, leaving an empty interaction behind.
    fn take(&mut self) -> (r: Interaction)
        ensures
            r == *old(self),
    {
        let mut taken = Interaction::new([0u8; 16], [0u8; 16]);
        std::mem::swap(self, &mut taken);
        taken
    }
    /// A new interaction `id` whose send stream is `send_id`, with no
    /// recipients, no receive streams and no key windows.
    pub fn new(id: [u8; 16], send_id: [u8; 16]) -> (r: Interaction)
        ensures
            r@ == (InteractionView {
                id: id@,
                send: SendStreamView { id: send_id@, recipients: Seq::empty() },
                recv: Seq::empty(),
                keys: Seq::empty(),
            }),
            interaction_wf(r@),
    {
        let r = Interaction {
            id,
            send_stream: SendStream::new(send_id),
            recv_streams: Vec::new(),
            recv_keys: KeyTable::new(),
        };
        assert(r@.recv =~= Seq::<RecvStreamView>::empty());
        r
    }

    /// The interaction's identifier.
    pub fn id(&self) -> (r: [u8; 16])
        ensures
            r@ == self@.id,
    {
        self.id
    }

    /// The send stream.
    pub fn send_stream(&self) -> (r: &SendStream)
        ensures
            r@ == self@.send,
    {
        &self.send_stream
    }

    /// The receive streams, in the order in which their peers were added.
    pub fn recv_streams(&self) -> (r: &Vec<RecvStream>)
        ensures
            r@.map_values(|r: RecvStream| r@) == self@.recv,
    {
        &self.recv_streams
    }

    /// The key window table.
    pub fn recv_keys(&self) -> (r: &KeyTable)
        ensures
            r@ == self@.keys,
    {
        &self.recv_keys
    }

    /// Adds a recipient to the send stream.
    pub fn add_recipient(&mut self, key: [u8; 32], username: Vec<u8>)
        ensures
            interaction_wf(final(self)@),
            final(self)@ == (InteractionView {
                send: SendStreamView {
                    id: old(self)@.send.id,
                    recipients: old(self)@.send.recipients.push(RecipientView { key: key@, username: username@ }),
                },
                ..old(self)@
            }),
    {
        self.wf();
        let Interaction { id, mut send_stream, recv_streams, recv_keys } = self.take();
        send_stream.add_recipient(key, username);
        *self = Interaction { id, send_stream, recv_streams, recv_keys };
        self.wf();
    }

    /// Starts a receive stream for a newly seen peer, at position 0.
    pub fn add_peer(&mut self, peer_id: [u8; 16]) -> (r: Result<(), StreamError>)
        ensures
            interaction_wf(final(self)@),
            (exists|i: int| 0 <= i < old(self)@.recv.len() && (#[trigger] old(self)@.recv[i]).id == peer_id@)
                ==> r == Err::<(), StreamError>(StreamError::DuplicatePeer) && final(self)@ == old(self)@,
            (forall|i: int| 0 <= i < old(self)@.recv.len() ==> (#[trigger] old(self)@.recv[i]).id != peer_id@)
                ==> r is Ok && final(self)@ == (InteractionView {
                    recv: old(self)@.recv.push(RecvStreamView { id: peer_id@, position: 0 }),
                    ..old(self)@
                }),
    {
        self.wf();
        let ghost old_recv = self@.recv;
        match find_peer(&self.recv_streams, self.recv_streams.len(), &peer_id) {
            Some(i) => {
                assert(old_recv[i as int].id == peer_id@);
                return Err(StreamError::DuplicatePeer);
            },
            None => {},
        }
        let r = RecvStream::new(peer_id, 0);
        let Interaction { id, send_stream, mut recv_streams, recv_keys } = self.take();
        recv_streams.push(r);
        proof {
            assert(recv_streams@.map_values(|r: RecvStream| r@) =~= old_recv.push(r@));
        }
        *self = Interaction { id, send_stream, recv_streams, recv_keys };
        self.wf();
        Ok(())
    }

    /// Moves the cursor of peer `peer_id` to `new_position`.
    pub fn advance(&mut self, peer_id: [u8; 16], new_position: u64) -> (r: Result<(), StreamError>)
        ensures
            interaction_wf(final(self)@),
            (forall|i: int| 0 <= i < old(self)@.recv.len() ==> (#[trigger] old(self)@.recv[i]).id != peer_id@)
                ==> r == Err::<(), StreamError>(StreamError::UnknownPeer) && final(self)@ == old(self)@,
            forall|i: int|
                0 <= i < old(self)@.recv.len() && (#[trigger] old(self)@.recv[i]).id == peer_id@ ==> match advance_spec(
                    old(self)@.recv[i],
                    new_position,
                ) {
                    Ok(v) => r is Ok && final(self)@ == (InteractionView { recv: old(self)@.recv.update(i, v), ..old(self)@ }),
                    Err(e) => r == Err::<(), StreamError>(e) && final(self)@ == old(self)@,
                },
    {
        self.wf();
        let ghost old_recv = self@.recv;
        let i = match find_peer(&self.recv_streams, self.recv_streams.len(), &peer_id) {
            Some(i) => i,
            None => {
                return Err(StreamError::UnknownPeer);
            },
        };
        assert(old_recv[i as int].id == peer_id@);
        let mut stream = self.recv_streams[i];
        match stream.advance(new_position) {
            Ok(()) => {},
            Err(e) => {
                return Err(e);
            },
        }
        let Interaction { id, send_stream, mut recv_streams, recv_keys } = self.take();
        recv_streams.set(i, stream);
        proof {
            let u = recv_streams@.map_values(|r: RecvStream| r@);
            assert(u =~= old_recv.update(i as int, stream@));
            assert forall|a: int, b: int| 0 <= a < u.len() && 0 <= b < u.len() && a != b implies #[trigger] u[a].id
                != #[trigger] u[b].id by {
                assert(old_recv[a].id != old_recv[b].id);
            }
        }
        *self = Interaction { id, send_stream, recv_streams, recv_keys };
        self.wf();
        Ok(())
    }

    /// Appends a key window to the table.
    pub fn rotate_key(&mut self, w: KeyWindow) -> (r: Result<(), KeyRatchetError>)
        ensures
            interaction_wf(final(self)@),
            can_append(old(self)@.keys, w@) ==> r is Ok && final(self)@ == (InteractionView {
                keys: old(self)@.keys.push(w@),
                ..old(self)@
            }),
            !can_append(old(self)@.keys, w@) ==> r == Err::<(), KeyRatchetError>(KeyRatchetError::InvalidWindow)
                && final(self)@ == old(self)@,
    {
        self.wf();
        let Interaction { id, send_stream, recv_streams, mut recv_keys } = self.take();
        let r = recv_keys.append(w);
        *self = Interaction { id, send_stream, recv_streams, recv_keys };
        self.wf();
        r
    }

    /// The keypair that decrypts the message at `position`.
    pub fn select_key(&self, position: u64) -> (r: Result<([u8; 32], [u8; 32]), KeyRatchetError>)
        ensures
            match r {
                Ok((pk, sk)) => exists|i: int|
                    0 <= i < self@.keys.len() && covers(#[trigger] self@.keys[i], position) && self@.keys[i].public_key
                        == pk@ && self@.keys[i].private_key == sk@,
                Err(e) => e == KeyRatchetError::KeyNotFound && forall|i: int|
                    0 <= i < self@.keys.len() ==> !covers(#[trigger] self@.keys[i], position),
            },
    {
        let r = self.recv_keys.select_key(position);
        assert(self@.keys == self.recv_keys@);
        r
    }

    /// The bytes that persist the send side, to replace the stored send
    /// stream record in a single write.
    pub fn put(&self) -> (r: Vec<u8>)
        ensures
            r@ == send_stream_bytes(self@.send),
            send_stream_valid(self@.send),
    {
        self.send_stream.put()
    }

    /// The bytes that persist every receive cursor, one record per stream in
    /// order. Each record stands on its own, so each is stored independently:
    /// the cursors written before a crash survive it.
    pub fn sync_all(&self) -> (r: Vec<Vec<u8>>)
        ensures
            r@.len() == self@.recv.len(),
            forall|i: int| 0 <= i < r@.len() ==> (#[trigger] r@[i])@ == recv_stream_bytes(self@.recv[i]),
    {
        let mut out: Vec<Vec<u8>> = Vec::new();
        let mut i: usize = 0;
        while i < self.recv_streams.len()
            invariant
                i <= self@.recv.len(),
                self@.recv.len() == self.recv_streams@.len(),
                out@.len() == i,
                forall|k: int| 0 <= k < i ==> (#[trigger] out@[k])@ == recv_stream_bytes(self@.recv[k]),
            decreases self@.recv.len() - i,
        {
            out.push(self.recv_streams[i].sync());
            i = i + 1;
        }
        out
    }

    /// The interaction's bytes, to be stored under its identifier.
    pub fn save(&self) -> (r: Vec<u8>)
        ensures
            r@ == interaction_bytes(self@),
            interaction_valid(self@),
    {
        self.wf();
        let ghost rs = self@.recv;
        let mut out: Vec<u8> = Vec::new();
        write_varint(&mut out, self.recv_streams.len() as u64);
        let ghost head = out@;
        let mut i: usize = 0;
        while i < self.recv_streams.len()
            invariant
                rs == self@.recv,
                rs.len() == self.recv_streams@.len(),
                i <= rs.len(),
                out@ == head + recv_streams_bytes(rs.subrange(0, i as int)),
                forall|k: int| 0 <= k < i ==> (#[trigger] rs[k]).id.len() == 16,
            decreases rs.len() - i,
        {
            self.recv_streams[i].encode_into(&mut out);
            proof {
                let u = rs.subrange(0, i + 1);
                assert(u.drop_last() =~= rs.subrange(0, i as int));
            }
            i = i + 1;
        }
        assert(rs.subrange(0, rs.len() as int) =~= rs);
        self.send_stream.encode_into(&mut out);
        self.recv_keys.encode_into(&mut out);
        assert(out@ =~= interaction_bytes(self@));
        out
    }

    /// Reads the bytes stored under `id` back into an interaction.
    pub fn load(id: [u8; 16], s: &[u8]) -> (r: Result<Interaction, FormatError>)
        ensures
            match r {
                Ok(x) => load_spec(id@, s@) == Ok::<InteractionView, FormatError>(x@) && interaction_wf(x@),
                Err(e) => load_spec(id@, s@) == Err::<InteractionView, FormatError>(e),
            },
    {
        let (n, q0) = match read_varint(s, 0) {
            Ok(x) => x,
            Err(e) => return Err(e),
        };
        let mut streams: Vec<RecvStream> = Vec::new();
        let mut q: usize = q0;
        let mut i: u64 = 0;
        assert(streams@.map_values(|r: RecvStream| r@) =~= Seq::<RecvStreamView>::empty());
        while i < n
            invariant
                i <= n,
                parse_varint(s@, 0) == Ok::<(u64, int), FormatError>((n, q0 as int)),
                parse_recv_streams(s@, q0 as int, i as nat) == Ok::<(Seq<RecvStreamView>, int), FormatError>(
                    (streams@.map_values(|r: RecvStream| r@), q as int),
                ),
            decreases n - i,
        {
            let ghost prev = streams@.map_values(|r: RecvStream| r@);
            let (r, q1) = match RecvStream::parse(s, q) {
                Ok(x) => x,
                Err(e) => {
                    proof {
                        lemma_parse_recv_streams_fails_on(s@, q0 as int, (i + 1) as nat, n as nat);
                    }
                    return Err(e);
                },
            };
            streams.push(r);
            proof {
                assert(streams@.map_values(|r: RecvStream| r@) =~= prev.push(r@));
            }
            q = q1;
            i = i + 1;
        }
        let ghost rs = streams@.map_values(|r: RecvStream| r@);
        let mut j: usize = 0;
        while j < streams.len()
            invariant
                rs == streams@.map_values(|r: RecvStream| r@),
                j <= streams@.len(),
                parse_varint(s@, 0) == Ok::<(u64, int), FormatError>((n, q0 as int)),
                parse_recv_streams(s@, q0 as int, n as nat) == Ok::<(Seq<RecvStreamView>, int), FormatError>((rs, q as int)),
                distinct_ids(rs.subrange(0, j as int)),
            decreases streams@.len() - j,
        {
            let sid = streams[j].id();
            match find_peer(&streams, j, &sid) {
                Some(k) => {
                    assert(!distinct_ids(rs)) by {
                        assert(rs[k as int].id == rs[j as int].id);
                    }
                    return Err(FormatError::DuplicatePeer);
                },
                None => {},
            }
            proof {
                let u = rs.subrange(0, j + 1);
                assert forall|a: int, b: int| 0 <= a < u.len() && 0 <= b < u.len() && a != b implies #[trigger] u[a].id
                    != #[trigger] u[b].id by {
                    if a < j && b < j {
                        assert(rs.subrange(0, j as int)[a] == u[a]);
                        assert(rs.subrange(0, j as int)[b] == u[b]);
                    } else if a == j {
                        assert(streams@[b]@ == u[b]);
                    } else {
                        assert(streams@[a]@ == u[a]);
                    }
                }
            }
            j = j + 1;
        }
        assert(rs.subrange(0, rs.len() as int) =~= rs);
        let (send_stream, m) = match SendStream::parse(s, q) {
            Ok(x) => x,
            Err(e) => return Err(e),
        };
        let (recv_keys, e) = match KeyTable::parse(s, m) {
            Ok(x) => x,
            Err(err) => return Err(err),
        };
        if e != s.len() {
            return Err(FormatError::TrailingBytes);
        }
        Ok(Interaction { id, send_stream, recv_streams: streams, recv_keys })
    }
}

} // verus!
