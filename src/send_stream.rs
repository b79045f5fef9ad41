//! The local outbound stream and the key and username of each recipient.
use vstd::prelude::*;

use crate::bytes::{copy_range, lemma_split_at, push_bytes, read_array};
use crate::error::FormatError;
use crate::varint::{parse_varint, read_varint, varint_bytes, write_varint};

verus! {

/// A recipient as a value.
pub struct RecipientView {
    pub key: Seq<u8>,
    pub username: Seq<u8>,
}

/// One recipient of the send stream: the symmetric key that addresses it and
/// its display name, encrypted. Keeping the two together means that a key can
/// never be paired with another recipient's name.
#[derive(Debug, PartialEq, Eq)]
pub struct Recipient {
    pub key: [u8; 32],
    pub username: Vec<u8>,
}

impl View for Recipient {
    type V = RecipientView;

    open spec fn view(&self) -> RecipientView {
        RecipientView { key: self.key@, username: self.username@ }
    }
}

/// A send stream as a value.
pub struct SendStreamView {
    pub id: Seq<u8>,
    pub recipients: Seq<RecipientView>,
}

/// The keys of the recipients, in order.
pub open spec fn send_keys_of(v: SendStreamView) -> Seq<Seq<u8>> {
    v.recipients.map_values(|r: RecipientView| r.key)
}

/// The encrypted usernames of the recipients, in order.
pub open spec fn usernames_of(v: SendStreamView) -> Seq<Seq<u8>> {
    v.recipients.map_values(|r: RecipientView| r.username)
}

/// The keys and the usernames of a send stream are always as many, and the
/// key and the username at one index belong to the same recipient.
pub proof fn lemma_keys_and_usernames_correlated(v: SendStreamView)
    ensures
        send_keys_of(v).len() == usernames_of(v).len(),
        forall|i: int|
            0 <= i < v.recipients.len() ==> (RecipientView {
                key: #[trigger] send_keys_of(v)[i],
                username: usernames_of(v)[i],
            }) == v.recipients[i],
{
}

/// The recipients' keys as stored, one after the other.
pub open spec fn keys_bytes(rs: Seq<RecipientView>) -> Seq<u8>
    decreases rs.len(),
{
    if rs.len() == 0 {
        Seq::empty()
    } else {
        keys_bytes(rs.drop_last()) + rs.last().key
    }
}

/// The recipients' usernames as stored, each after its length.
pub open spec fn names_bytes(rs: Seq<RecipientView>) -> Seq<u8>
    decreases rs.len(),
{
    if rs.len() == 0 {
        Seq::empty()
    } else {
        names_bytes(rs.drop_last()) + varint_bytes(rs.last().username.len() as u64) + rs.last().username
    }
}

/// The record as stored: identifier, number of recipients, every key, then
/// every username.
pub open spec fn send_stream_bytes(v: SendStreamView) -> Seq<u8> {
    v.id + varint_bytes(v.recipients.len() as u64) + keys_bytes(v.recipients) + names_bytes(v.recipients)
}

/// Reads `n` keys that start at offset `p` of `s`.
pub open spec fn parse_keys(s: Seq<u8>, p: int, n: nat) -> Result<(Seq<Seq<u8>>, int), FormatError>
    decreases n,
{
    if n == 0 {
        Ok((Seq::empty(), p))
    } else {
        match parse_keys(s, p, (n - 1) as nat) {
            Err(e) => Err(e),
            Ok((ks, q)) => if q + 32 > s.len() {
                Err(FormatError::Truncated)
            } else {
                Ok((ks.push(s.subrange(q, q + 32)), q + 32))
            },
        }
    }
}

/// Reads a length-prefixed username at offset `p` of `s`. A buffer that ends
/// within it leaves a key without its username.
pub open spec fn parse_name(s: Seq<u8>, p: int) -> Result<(Seq<u8>, int), FormatError> {
    match parse_varint(s, p) {
        Err(FormatError::Truncated) => Err(FormatError::CorrelationMismatch),
        Err(e) => Err(e),
        Ok((l, q)) => if q + l > s.len() {
            Err(FormatError::CorrelationMismatch)
        } else {
            Ok((s.subrange(q, q + l), q + l))
        },
    }
}

/// Reads `n` usernames that start at offset `p` of `s`.
pub open spec fn parse_names(s: Seq<u8>, p: int, n: nat) -> Result<(Seq<Seq<u8>>, int), FormatError>
    decreases n,
{
    if n == 0 {
        Ok((Seq::empty(), p))
    } else {
        match parse_names(s, p, (n - 1) as nat) {
            Err(e) => Err(e),
            Ok((ns, q)) => match parse_name(s, q) {
                Err(e) => Err(e),
                Ok((name, k)) => Ok((ns.push(name), k)),
            },
        }
    }
}

/// Pairs each key with the username at the same index.
pub open spec fn pair_up(ks: Seq<Seq<u8>>, ns: Seq<Seq<u8>>) -> Seq<RecipientView> {
    Seq::new(ks.len(), |i: int| RecipientView { key: ks[i], username: ns[i] })
}

/// Reads a send stream record that starts at offset `p` of `s`.
pub open spec fn parse_send_stream(s: Seq<u8>, p: int) -> Result<(SendStreamView, int), FormatError> {
    if p < 0 || p + 16 > s.len() {
        Err(FormatError::Truncated)
    } else {
        match parse_varint(s, p + 16) {
            Err(e) => Err(e),
            Ok((n, q)) => match parse_keys(s, q, n as nat) {
                Err(e) => Err(e),
                Ok((ks, k)) => match parse_names(s, k, n as nat) {
                    Err(e) => Err(e),
                    Ok((ns, e)) => Ok((SendStreamView { id: s.subrange(p, p + 16), recipients: pair_up(ks, ns) }, e)),
                },
            },
        }
    }
}

/// Reads a buffer that holds exactly one send stream record.
pub open spec fn decode_send_stream(s: Seq<u8>) -> Result<SendStreamView, FormatError> {
    match parse_send_stream(s, 0) {
        Ok((v, q)) => if q == s.len() {
            Ok(v)
        } else {
            Err(FormatError::TrailingBytes)
        },
        Err(e) => Err(e),
    }
}

proof fn lemma_parse_keys_fails_on(s: Seq<u8>, p: int, m: nat, n: nat)
    requires
        m <= n,
        parse_keys(s, p, m) is Err,
    ensures
        parse_keys(s, p, n) == parse_keys(s, p, m),
    decreases n,
{
    if m < n {
        lemma_parse_keys_fails_on(s, p, m, (n - 1) as nat);
    }
}

proof fn lemma_parse_names_fails_on(s: Seq<u8>, p: int, m: nat, n: nat)
    requires
        m <= n,
        parse_names(s, p, m) is Err,
    ensures
        parse_names(s, p, n) == parse_names(s, p, m),
    decreases n,
{
    if m < n {
        lemma_parse_names_fails_on(s, p, m, (n - 1) as nat);
    }
}

/// Keys written at offset `p` of a buffer read back from there.
pub proof fn lemma_parse_keys_at(s: Seq<u8>, p: int, rs: Seq<RecipientView>)
    requires
        0 <= p,
        forall|i: int| 0 <= i < rs.len() ==> (#[trigger] rs[i]).key.len() == 32,
        p + keys_bytes(rs).len() <= s.len(),
        s.subrange(p, p + keys_bytes(rs).len()) == keys_bytes(rs),
    ensures
        parse_keys(s, p, rs.len()) == Ok::<(Seq<Seq<u8>>, int), FormatError>(
            (rs.map_values(|r: RecipientView| r.key), p + keys_bytes(rs).len()),
        ),
    decreases rs.len(),
{
    if rs.len() > 0 {
        let init = rs.drop_last();
        assert forall|i: int| 0 <= i < init.len() implies (#[trigger] init[i]).key.len() == 32 by {
            assert(init[i] == rs[i]);
        }
        lemma_split_at(s, p, keys_bytes(init), rs.last().key);
        lemma_parse_keys_at(s, p, init);
        assert(init.map_values(|r: RecipientView| r.key).push(rs.last().key) =~= rs.map_values(
            |r: RecipientView| r.key,
        ));
    } else {
        assert(rs.map_values(|r: RecipientView| r.key) =~= Seq::<Seq<u8>>::empty());
    }
}

/// Usernames written at offset `p` of a buffer read back from there.
pub proof fn lemma_parse_names_at(s: Seq<u8>, p: int, rs: Seq<RecipientView>)
    requires
        0 <= p,
        forall|i: int| 0 <= i < rs.len() ==> (#[trigger] rs[i]).username.len() <= u64::MAX,
        p + names_bytes(rs).len() <= s.len(),
        s.subrange(p, p + names_bytes(rs).len()) == names_bytes(rs),
    ensures
        parse_names(s, p, rs.len()) == Ok::<(Seq<Seq<u8>>, int), FormatError>(
            (rs.map_values(|r: RecipientView| r.username), p + names_bytes(rs).len()),
        ),
    decreases rs.len(),
{
    if rs.len() > 0 {
        let init = rs.drop_last();
        assert forall|i: int| 0 <= i < init.len() implies (#[trigger] init[i]).username.len() <= u64::MAX by {
            assert(init[i] == rs[i]);
        }
        let a = names_bytes(init);
        let lb = varint_bytes(rs.last().username.len() as u64);
        let name = rs.last().username;
        lemma_split_at(s, p, a + lb, name);
        lemma_split_at(s, p, a, lb);
        lemma_parse_names_at(s, p, init);
        crate::varint::lemma_parse_varint_at(s, p + a.len(), rs.last().username.len() as u64);
        assert(init.map_values(|r: RecipientView| r.username).push(name) =~= rs.map_values(
            |r: RecipientView| r.username,
        ));
    } else {
        assert(rs.map_values(|r: RecipientView| r.username) =~= Seq::<Seq<u8>>::empty());
    }
}

/// The sizes that a stored send stream can hold: a 16-byte identifier,
/// 32-byte keys, and counts and lengths that fit in 64 bits.
pub open spec fn send_stream_valid(v: SendStreamView) -> bool {
    &&& v.id.len() == 16
    &&& v.recipients.len() <= u64::MAX
    &&& forall|i: int|
        0 <= i < v.recipients.len() ==> (#[trigger] v.recipients[i]).key.len() == 32
            && v.recipients[i].username.len() <= u64::MAX
}

/// A send stream record written at offset `p` of a buffer reads back from there.
pub proof fn lemma_parse_send_stream_at(s: Seq<u8>, p: int, v: SendStreamView)
    requires
        0 <= p,
        send_stream_valid(v),
        p + send_stream_bytes(v).len() <= s.len(),
        s.subrange(p, p + send_stream_bytes(v).len()) == send_stream_bytes(v),
    ensures
        parse_send_stream(s, p) == Ok::<(SendStreamView, int), FormatError>((v, p + send_stream_bytes(v).len())),
{
    let rs = v.recipients;
    let c = varint_bytes(rs.len() as u64);
    let kb = keys_bytes(rs);
    let nb = names_bytes(rs);
    lemma_split_at(s, p, v.id + c + kb, nb);
    lemma_split_at(s, p, v.id + c, kb);
    lemma_split_at(s, p, v.id, c);
    crate::varint::lemma_parse_varint_at(s, p + 16, rs.len() as u64);
    lemma_parse_keys_at(s, p + 16 + c.len(), rs);
    lemma_parse_names_at(s, p + 16 + c.len() + kb.len(), rs);
    assert(pair_up(rs.map_values(|r: RecipientView| r.key), rs.map_values(|r: RecipientView| r.username)) =~= rs);
}

/// A send stream stored on its own reads back as it was.
pub proof fn lemma_send_stream_round_trip(v: SendStreamView)
    requires
        send_stream_valid(v),
    ensures
        decode_send_stream(send_stream_bytes(v)) == Ok::<SendStreamView, FormatError>(v),
{
    let s = send_stream_bytes(v);
    assert(s.subrange(0, s.len() as int) =~= s);
    lemma_parse_send_stream_at(s, 0, v);
}

proof fn lemma_names_cut(f: Seq<u8>, p: int, rs: Seq<RecipientView>, c: int)
    requires
        0 <= p <= c,
        c < p + names_bytes(rs).len(),
        p + names_bytes(rs).len() <= f.len(),
        f.subrange(p, p + names_bytes(rs).len()) == names_bytes(rs),
        forall|i: int| 0 <= i < rs.len() ==> (#[trigger] rs[i]).username.len() <= u64::MAX,
    ensures
        parse_names(f.take(c), p, rs.len()) == Err::<(Seq<Seq<u8>>, int), FormatError>(
            FormatError::CorrelationMismatch,
        ),
    decreases rs.len(),
{
    let s = f.take(c);
    let init = rs.drop_last();
    let a = names_bytes(init);
    let name = rs.last().username;
    let vb = varint_bytes(name.len() as u64);
    assert forall|i: int| 0 <= i < init.len() implies (#[trigger] init[i]).username.len() <= u64::MAX by {
        assert(init[i] == rs[i]);
    }
    lemma_split_at(f, p, a + vb, name);
    lemma_split_at(f, p, a, vb);
    let q = p + a.len();
    if c < q {
        lemma_names_cut(f, p, init, c);
    } else {
        assert(s.subrange(p, q) =~= f.subrange(p, q));
        lemma_parse_names_at(s, p, init);
        crate::varint::lemma_varint_bytes_shape(name.len() as u64);
        if q + vb.len() <= c {
            assert(s.subrange(q, q + vb.len()) =~= f.subrange(q, q + vb.len()));
            crate::varint::lemma_parse_varint_at(s, q, name.len() as u64);
        } else if q < c {
            assert(s[q] == f.subrange(q, q + vb.len())[0]);
        }
    }
}

/// A send stream record cut anywhere among its usernames is refused: the keys
/// read before the cut would be left without their names.
pub proof fn lemma_cut_usernames_refused(v: SendStreamView, c: int)
    requires
        send_stream_valid(v),
        16 + varint_bytes(v.recipients.len() as u64).len() + keys_bytes(v.recipients).len() <= c < send_stream_bytes(
            v,
        ).len(),
    ensures
        decode_send_stream(send_stream_bytes(v).take(c)) == Err::<SendStreamView, FormatError>(
            FormatError::CorrelationMismatch,
        ),
{
    let rs = v.recipients;
    let cnt = varint_bytes(rs.len() as u64);
    let kb = keys_bytes(rs);
    let nb = names_bytes(rs);
    let f = send_stream_bytes(v);
    let s = f.take(c);
    let k0: int = 16 + cnt.len() as int;
    let n0: int = k0 + kb.len() as int;
    assert(f.subrange(0, f.len() as int) =~= f);
    lemma_split_at(f, 0, v.id + cnt + kb, nb);
    lemma_split_at(f, 0, v.id + cnt, kb);
    lemma_split_at(f, 0, v.id, cnt);
    assert(s.subrange(16, k0) =~= f.subrange(16, k0));
    assert(s.subrange(k0, n0) =~= f.subrange(k0, n0));
    crate::varint::lemma_parse_varint_at(s, 16, rs.len() as u64);
    lemma_parse_keys_at(s, k0, rs);
    lemma_names_cut(f, n0, rs, c);
}

/// The local outbound stream: its identifier and its recipients, in order.
#[derive(Debug)]
pub struct SendStream {
    id: [u8; 16],
    recipients: Vec<Recipient>,
}

impl View for SendStream {
    type V = SendStreamView;

    closed spec fn view(&self) -> SendStreamView {
        SendStreamView { id: self.id@, recipients: self.recipients@.map_values(|r: Recipient| r@) }
    }
}

impl SendStream {
    /// A send stream `id` with no recipients.
    pub fn new(id: [u8; 16]) -> (r: SendStream)
        ensures
            r@ == (SendStreamView { id: id@, recipients: Seq::empty() }),
    {
        let r = SendStream { id, recipients: Vec::new() };
        assert(r@.recipients =~= Seq::<RecipientView>::empty());
        r
    }

    /// The stream's identifier.
    pub fn id(&self) -> (r: [u8; 16])
        ensures
            r@ == self@.id,
    {
        self.id
    }

    /// The number of recipients.
    pub fn len(&self) -> (r: usize)
        ensures
            r == self@.recipients.len(),
    {
        self.recipients.len()
    }

    /// The recipient at index `i`.
    pub fn recipient(&self, i: usize) -> (r: &Recipient)
        requires
            i < self@.recipients.len(),
        ensures
            r@ == self@.recipients[i as int],
    {
        &self.recipients[i]
    }

    /// Adds a recipient after the others: its key and its username together,
    /// so that the two sequences stay the same length.
    pub fn add_recipient(&mut self, key: [u8; 32], username: Vec<u8>)
        ensures
            final(self)@ == (SendStreamView {
                id: old(self)@.id,
                recipients: old(self)@.recipients.push(RecipientView { key: key@, username: username@ }),
            }),
            send_keys_of(final(self)@) == send_keys_of(old(self)@).push(key@),
            usernames_of(final(self)@) == usernames_of(old(self)@).push(username@),
    {
        let ghost old_recips = self@.recipients;
        let r = Recipient { key, username };
        self.recipients.push(r);
        proof {
            assert(self@.recipients =~= old_recips.push(r@));
            assert(send_keys_of(self@) =~= old_recips.map_values(|r: RecipientView| r.key).push(key@));
            assert(usernames_of(self@) =~= old_recips.map_values(|r: RecipientView| r.username).push(username@));
        }
    }

    /// The recipients' keys, in order.
    pub fn send_keys(&self) -> (r: Vec<[u8; 32]>)
        ensures
            r@.len() == self@.recipients.len(),
            forall|i: int| 0 <= i < r@.len() ==> (#[trigger] r@[i])@ == send_keys_of(self@)[i],
    {
        let mut r: Vec<[u8; 32]> = Vec::new();
        let mut i: usize = 0;
        while i < self.recipients.len()
            invariant
                i <= self@.recipients.len(),
                r@.len() == i,
                forall|j: int| 0 <= j < i ==> (#[trigger] r@[j])@ == send_keys_of(self@)[j],
            decreases self@.recipients.len() - i,
        {
            r.push(self.recipients[i].key);
            i = i + 1;
        }
        r
    }

    /// The recipients' encrypted usernames, in order.
    pub fn usernames(&self) -> (r: Vec<Vec<u8>>)
        ensures
            r@.len() == self@.recipients.len(),
            forall|i: int| 0 <= i < r@.len() ==> (#[trigger] r@[i])@ == usernames_of(self@)[i],
    {
        let mut r: Vec<Vec<u8>> = Vec::new();
        let mut i: usize = 0;
        while i < self.recipients.len()
            invariant
                i <= self@.recipients.len(),
                r@.len() == i,
                forall|j: int| 0 <= j < i ==> (#[trigger] r@[j])@ == usernames_of(self@)[j],
            decreases self@.recipients.len() - i,
        {
            let name = &self.recipients[i].username;
            let copy = copy_range(name.as_slice(), 0, name.len());
            assert(name@.subrange(0, name@.len() as int) =~= name@);
            r.push(copy);
            i = i + 1;
        }
        r
    }

    /// Appends the record's encoding to `out`.
    pub fn encode_into(&self, out: &mut Vec<u8>)
        ensures
            final(out)@ == old(out)@ + send_stream_bytes(self@),
            send_stream_valid(self@),
    {
        let ghost start = out@;
        let ghost rs = self@.recipients;
        push_bytes(out, &self.id);
        write_varint(out, self.recipients.len() as u64);
        let ghost head = out@;
        let mut i: usize = 0;
        while i < self.recipients.len()
            invariant
                rs == self@.recipients,
                i <= rs.len(),
                out@ == head + keys_bytes(rs.subrange(0, i as int)),
            decreases rs.len() - i,
        {
            let ghost before = out@;
            push_bytes(out, &self.recipients[i].key);
            proof {
                let u = rs.subrange(0, i + 1);
                assert(u.drop_last() =~= rs.subrange(0, i as int));
            }
            i = i + 1;
        }
        let ghost mid = out@;
        let mut i: usize = 0;
        while i < self.recipients.len()
            invariant
                rs == self@.recipients,
                i <= rs.len(),
                out@ == mid + names_bytes(rs.subrange(0, i as int)),
                forall|k: int| 0 <= k < i ==> (#[trigger] rs[k]).key.len() == 32 && rs[k].username.len() <= u64::MAX,
            decreases rs.len() - i,
        {
            let name = &self.recipients[i].username;
            assert(rs[i as int] == self.recipients@[i as int]@);
            write_varint(out, name.len() as u64);
            push_bytes(out, name.as_slice());
            proof {
                let u = rs.subrange(0, i + 1);
                assert(u.drop_last() =~= rs.subrange(0, i as int));
            }
            i = i + 1;
        }
        assert(rs.subrange(0, rs.len() as int) =~= rs);
        assert(out@ =~= start + send_stream_bytes(self@));
    }

    /// The bytes that persist the send side: the whole record, to replace the
    /// previous one in a single write.
    pub fn put(&self) -> (r: Vec<u8>)
        ensures
            r@ == send_stream_bytes(self@),
            send_stream_valid(self@),
    {
        let mut out: Vec<u8> = Vec::new();
        self.encode_into(&mut out);
        assert(out@ =~= send_stream_bytes(self@));
        out
    }

    /// Reads a send stream record that starts at offset `p` of `s`.
    pub fn parse(s: &[u8], p: usize) -> (r: Result<(SendStream, usize), FormatError>)
        ensures
            match r {
                Ok((v, q)) => parse_send_stream(s@, p as int) == Ok::<(SendStreamView, int), FormatError>((v@, q as int)),
                Err(e) => parse_send_stream(s@, p as int) == Err::<(SendStreamView, int), FormatError>(e),
            },
    {
        if p > s.len() || 16 > s.len() - p {
            return Err(FormatError::Truncated);
        }
        let id: [u8; 16] = read_array(s, p);
        let (n, q0) = match read_varint(s, p + 16) {
            Ok(x) => x,
            Err(e) => return Err(e),
        };
        let mut keys: Vec<[u8; 32]> = Vec::new();
        let mut q: usize = q0;
        let mut i: u64 = 0;
        assert(keys@.map_values(|k: [u8; 32]| k@) =~= Seq::<Seq<u8>>::empty());
        while i < n
            invariant
                i <= n,
                keys@.len() == i,
                p + 16 <= s@.len(),
                parse_varint(s@, p + 16) == Ok::<(u64, int), FormatError>((n, q0 as int)),
                parse_keys(s@, q0 as int, i as nat) == Ok::<(Seq<Seq<u8>>, int), FormatError>(
                    (keys@.map_values(|k: [u8; 32]| k@), q as int),
                ),
            decreases n - i,
        {
            let ghost prev = keys@.map_values(|k: [u8; 32]| k@);
            if q > s.len() || 32 > s.len() - q {
                proof {
                    lemma_parse_keys_fails_on(s@, q0 as int, (i + 1) as nat, n as nat);
                }
                return Err(FormatError::Truncated);
            }
            let k: [u8; 32] = read_array(s, q);
            keys.push(k);
            proof {
                assert(keys@.map_values(|k: [u8; 32]| k@) =~= prev.push(k@));
            }
            q = q + 32;
            i = i + 1;
        }
        let ghost ks = keys@.map_values(|k: [u8; 32]| k@);
        let k0 = q;
        let mut recipients: Vec<Recipient> = Vec::new();
        let ghost mut names: Seq<Seq<u8>> = Seq::empty();
        let mut i: usize = 0;
        while i < keys.len()
            invariant
                keys@.len() == n,
                ks == keys@.map_values(|k: [u8; 32]| k@),
                p + 16 <= s@.len(),
                id@ == s@.subrange(p as int, p + 16),
                parse_varint(s@, p + 16) == Ok::<(u64, int), FormatError>((n, q0 as int)),
                parse_keys(s@, q0 as int, n as nat) == Ok::<(Seq<Seq<u8>>, int), FormatError>((ks, k0 as int)),
                i <= keys@.len(),
                names.len() == i,
                recipients@.len() == i,
                forall|j: int| 0 <= j < i ==> (#[trigger] recipients@[j])@ == (RecipientView { key: ks[j], username: names[j] }),
                parse_names(s@, k0 as int, i as nat) == Ok::<(Seq<Seq<u8>>, int), FormatError>((names, q as int)),
            decreases keys@.len() - i,
        {
            let (l, q1) = match read_varint(s, q) {
                Ok(x) => x,
                Err(e) => {
                    proof {
                        lemma_parse_names_fails_on(s@, k0 as int, (i + 1) as nat, n as nat);
                    }
                    if e == FormatError::Truncated {
                        return Err(FormatError::CorrelationMismatch);
                    }
                    return Err(e);
                },
            };
            if l > (s.len() - q1) as u64 {
                proof {
                    lemma_parse_names_fails_on(s@, k0 as int, (i + 1) as nat, n as nat);
                }
                return Err(FormatError::CorrelationMismatch);
            }
            let end = q1 + l as usize;
            let username = copy_range(s, q1, end);
            proof {
                names = names.push(username@);
            }
            recipients.push(Recipient { key: keys[i], username });
            q = end;
            i = i + 1;
        }
        let v = SendStream { id, recipients };
        assert(v@.recipients =~= pair_up(ks, names));
        Ok((v, q))
    }

    /// Reads a buffer that holds exactly one send stream record, as `put` wrote it.
    pub fn decode(s: &[u8]) -> (r: Result<SendStream, FormatError>)
        ensures
            match r {
                Ok(v) => decode_send_stream(s@) == Ok::<SendStreamView, FormatError>(v@),
                Err(e) => decode_send_stream(s@) == Err::<SendStreamView, FormatError>(e),
            },
    {
        match SendStream::parse(s, 0) {
            Ok((v, q)) => if q == s.len() {
                Ok(v)
            } else {
                Err(FormatError::TrailingBytes)
            },
            Err(e) => Err(e),
        }
    }
}

} // verus!
