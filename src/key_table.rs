//! The key ratchet table: contiguous windows of stream positions, each bound to
//! the keypair that decrypts messages at those positions.
use vstd::prelude::*;

use crate::bytes::{lemma_split_at, push_bytes, read_array};
use crate::error::{FormatError, KeyRatchetError};
use crate::varint::{parse_varint, read_varint, varint_bytes, write_varint};

verus! {

/// A window as a value.
pub struct KeyWindowView {
    pub start: u64,
    pub end: u64,
    pub public_key: Seq<u8>,
    pub private_key: Seq<u8>,
}

/// The half-open window `[start, end)` of positions, with the public key in the
/// clear and the private key as it is stored, encrypted.
#[derive(Debug, Clone, Copy, PartialEq, Eq)]
pub struct KeyWindow {
    pub start: u64,
    pub end: u64,
    pub public_key: [u8; 32],
    pub private_key: [u8; 32],
}

impl View for KeyWindow {
    type V = KeyWindowView;

    open spec fn view(&self) -> KeyWindowView {
        KeyWindowView {
            start: self.start,
            end: self.end,
            public_key: self.public_key@,
            private_key: self.private_key@,
        }
    }
}

impl KeyWindow {
    pub fn new(start: u64, end: u64, public_key: [u8; 32], private_key: [u8; 32]) -> (r: KeyWindow)
        ensures
            r == (KeyWindow { start, end, public_key, private_key }),
    {
        KeyWindow { start, end, public_key, private_key }
    }
}

/// Whether `w` covers position `p`.
pub open spec fn covers(w: KeyWindowView, p: u64) -> bool {
    w.start <= p < w.end
}

/// Well-formed tables: no window ends before it starts, and each one starts where
/// the one before it ends.
pub open spec fn table_wf(t: Seq<KeyWindowView>) -> bool {
    &&& forall|i: int| 0 <= i < t.len() ==> #[trigger] t[i].start <= t[i].end
    &&& forall|i: int| 0 < i < t.len() ==> #[trigger] t[i].start == t[i - 1].end
}

/// Whether `w` may be appended to `t`.
pub open spec fn can_append(t: Seq<KeyWindowView>, w: KeyWindowView) -> bool {
    w.start <= w.end && (t.len() == 0 || w.start == t.last().end)
}

/// Windows of a well-formed table follow one another without overlap.
pub proof fn lemma_windows_ordered(t: Seq<KeyWindowView>, i: int, j: int)
    requires
        table_wf(t),
        0 <= i < j < t.len(),
    ensures
        t[i].end <= t[j].start,
    decreases j - i,
{
    if i + 1 < j {
        lemma_windows_ordered(t, i, j - 1);
        assert(t[j - 1].start <= t[j - 1].end);
    }
}

/// In a well-formed table at most one window covers a position.
pub proof fn lemma_cover_unique(t: Seq<KeyWindowView>, p: u64, i: int, j: int)
    requires
        table_wf(t),
        0 <= i < t.len(),
        0 <= j < t.len(),
        covers(t[i], p),
        covers(t[j], p),
    ensures
        i == j,
{
    if i < j {
        lemma_windows_ordered(t, i, j);
    } else if j < i {
        lemma_windows_ordered(t, j, i);
    }
}

/// Appending a window that may be appended keeps a table well-formed.
pub proof fn lemma_append_keeps_wf(t: Seq<KeyWindowView>, w: KeyWindowView)
    requires
        table_wf(t),
        can_append(t, w),
    ensures
        table_wf(t.push(w)),
{
    let u = t.push(w);
    assert forall|i: int| 0 < i < u.len() implies #[trigger] u[i].start == u[i - 1].end by {
        if i < t.len() {
            assert(u[i] == t[i] && u[i - 1] == t[i - 1]);
        }
    }
}

/// A window as stored: start, end, public key, encrypted private key.
pub open spec fn key_window_bytes(w: KeyWindowView) -> Seq<u8> {
    varint_bytes(w.start) + varint_bytes(w.end) + w.public_key + w.private_key
}

/// Windows as stored, one after the other.
pub open spec fn key_windows_bytes(t: Seq<KeyWindowView>) -> Seq<u8>
    decreases t.len(),
{
    if t.len() == 0 {
        Seq::empty()
    } else {
        key_windows_bytes(t.drop_last()) + key_window_bytes(t.last())
    }
}

/// A table as stored: the number of windows, then the windows.
pub open spec fn key_table_bytes(t: Seq<KeyWindowView>) -> Seq<u8> {
    varint_bytes(t.len() as u64) + key_windows_bytes(t)
}

/// Reads a window that starts at offset `p` of `s`.
pub open spec fn parse_key_window(s: Seq<u8>, p: int) -> Result<(KeyWindowView, int), FormatError> {
    match parse_varint(s, p) {
        Err(e) => Err(e),
        Ok((start, q)) => match parse_varint(s, q) {
            Err(e) => Err(e),
            Ok((end, k)) => if k + 64 > s.len() {
                Err(FormatError::Truncated)
            } else {
                Ok(
                    (
                        KeyWindowView {
                            start,
                            end,
                            public_key: s.subrange(k, k + 32),
                            private_key: s.subrange(k + 32, k + 64),
                        },
                        k + 64,
                    ),
                )
            },
        },
    }
}

/// Reads `n` windows that start at offset `p` of `s`.
pub open spec fn parse_key_windows(s: Seq<u8>, p: int, n: nat) -> Result<(Seq<KeyWindowView>, int), FormatError>
    decreases n,
{
    if n == 0 {
        Ok((Seq::empty(), p))
    } else {
        match parse_key_windows(s, p, (n - 1) as nat) {
            Err(e) => Err(e),
            Ok((t, q)) => match parse_key_window(s, q) {
                Err(e) => Err(e),
                Ok((w, k)) => Ok((t.push(w), k)),
            },
        }
    }
}

/// Reads a table that starts at offset `p` of `s`; a table that is not
/// well-formed is refused.
pub open spec fn parse_key_table(s: Seq<u8>, p: int) -> Result<(Seq<KeyWindowView>, int), FormatError> {
    match parse_varint(s, p) {
        Err(e) => Err(e),
        Ok((n, q)) => match parse_key_windows(s, q, n as nat) {
            Err(e) => Err(e),
            Ok((t, k)) => if table_wf(t) {
                Ok((t, k))
            } else {
                Err(FormatError::InvalidWindow)
            },
        },
    }
}

proof fn lemma_parse_key_windows_fails_on(s: Seq<u8>, p: int, m: nat, n: nat)
    requires
        m <= n,
        parse_key_windows(s, p, m) is Err,
    ensures
        parse_key_windows(s, p, n) == parse_key_windows(s, p, m),
    decreases n,
{
    if m < n {
        lemma_parse_key_windows_fails_on(s, p, m, (n - 1) as nat);
    }
}

/// A window written at offset `p` of a buffer reads back from there.
pub proof fn lemma_parse_key_window_at(s: Seq<u8>, p: int, w: KeyWindowView)
    requires
        0 <= p,
        w.public_key.len() == 32,
        w.private_key.len() == 32,
        p + key_window_bytes(w).len() <= s.len(),
        s.subrange(p, p + key_window_bytes(w).len()) == key_window_bytes(w),
    ensures
        parse_key_window(s, p) == Ok::<(KeyWindowView, int), FormatError>((w, p + key_window_bytes(w).len())),
{
    let a = varint_bytes(w.start);
    let b = varint_bytes(w.end);
    lemma_split_at(s, p, a + b + w.public_key, w.private_key);
    lemma_split_at(s, p, a + b, w.public_key);
    lemma_split_at(s, p, a, b);
    crate::varint::lemma_parse_varint_at(s, p, w.start);
    crate::varint::lemma_parse_varint_at(s, p + a.len(), w.end);
}

/// Windows written at offset `p` of a buffer read back from there.
pub proof fn lemma_parse_key_windows_at(s: Seq<u8>, p: int, t: Seq<KeyWindowView>)
    requires
        0 <= p,
        forall|i: int| 0 <= i < t.len() ==> (#[trigger] t[i]).public_key.len() == 32 && t[i].private_key.len() == 32,
        p + key_windows_bytes(t).len() <= s.len(),
        s.subrange(p, p + key_windows_bytes(t).len()) == key_windows_bytes(t),
    ensures
        parse_key_windows(s, p, t.len()) == Ok::<(Seq<KeyWindowView>, int), FormatError>((t, p + key_windows_bytes(t).len())),
    decreases t.len(),
{
    if t.len() > 0 {
        let init = t.drop_last();
        let a = key_windows_bytes(init);
        let b = key_window_bytes(t.last());
        assert forall|i: int| 0 <= i < init.len() implies (#[trigger] init[i]).public_key.len() == 32
            && init[i].private_key.len() == 32 by {
            assert(init[i] == t[i]);
        }
        lemma_split_at(s, p, a, b);
        lemma_parse_key_windows_at(s, p, init);
        lemma_parse_key_window_at(s, p + a.len(), t.last());
        assert(init.push(t.last()) =~= t);
    } else {
        assert(t =~= Seq::<KeyWindowView>::empty());
    }
}

/// The sizes that a stored table can hold: 32-byte keys and a count that
/// fits in 64 bits.
pub open spec fn key_windows_valid(t: Seq<KeyWindowView>) -> bool {
    &&& t.len() <= u64::MAX
    &&& forall|i: int| 0 <= i < t.len() ==> (#[trigger] t[i]).public_key.len() == 32 && t[i].private_key.len() == 32
}

/// A well-formed table written at offset `p` of a buffer reads back from there.
pub proof fn lemma_parse_key_table_at(s: Seq<u8>, p: int, t: Seq<KeyWindowView>)
    requires
        0 <= p,
        table_wf(t),
        key_windows_valid(t),
        p + key_table_bytes(t).len() <= s.len(),
        s.subrange(p, p + key_table_bytes(t).len()) == key_table_bytes(t),
    ensures
        parse_key_table(s, p) == Ok::<(Seq<KeyWindowView>, int), FormatError>((t, p + key_table_bytes(t).len())),
{
    let c = varint_bytes(t.len() as u64);
    lemma_split_at(s, p, c, key_windows_bytes(t));
    crate::varint::lemma_parse_varint_at(s, p, t.len() as u64);
    lemma_parse_key_windows_at(s, p + c.len(), t);
}

/// The table of key windows, in order of position.
#[derive(Debug)]
pub struct KeyTable {
    windows: Vec<KeyWindow>,
}

impl View for KeyTable {
    type V = Seq<KeyWindowView>;

    closed spec fn view(&self) -> Seq<KeyWindowView> {
        self.windows@.map_values(|w: KeyWindow| w@)
    }
}

impl KeyTable {
    #[verifier::type_invariant]
    spec fn inv(&self) -> bool {
        table_wf(self@)
    }

    /// A table with no windows.
    pub fn new() -> (r: KeyTable)
        ensures
            r@ == Seq::<KeyWindowView>::empty(),
    {
        let r = KeyTable { windows: Vec::new() };
        assert(r@ =~= Seq::<KeyWindowView>::empty());
        r
    }

    /// The number of windows.
    pub fn len(&self) -> (r: usize)
        ensures
            r == self@.len(),
            table_wf(self@),
    {
        proof {
            use_type_invariant(self);
        }
        self.windows.len()
    }

    /// The window at index `i`.
    pub fn get(&self, i: usize) -> (r: KeyWindow)
        requires
            i < self@.len(),
        ensures
            r@ == self@[i as int],
    {
        self.windows[i]
    }

    /// Appends a window after the newest one. It must start where the newest
    /// window ends, and may be empty but not inverted (end before start);
    /// otherwise the table is left as it was.
    pub fn append(&mut self, w: KeyWindow) -> (r: Result<(), KeyRatchetError>)
        ensures
            table_wf(final(self)@),
            can_append(old(self)@, w@) ==> r is Ok && final(self)@ == old(self)@.push(w@),
            !can_append(old(self)@, w@) ==> r == Err::<(), KeyRatchetError>(KeyRatchetError::InvalidWindow)
                && final(self)@ == old(self)@,
    {
        proof {
            use_type_invariant(&*self);
        }
        if w.start > w.end {
            return Err(KeyRatchetError::InvalidWindow);
        }
        let n = self.windows.len();
        if n > 0 && w.start != self.windows[n - 1].end {
            return Err(KeyRatchetError::InvalidWindow);
        }
        proof {
            lemma_append_keeps_wf(self@, w@);
            assert(self.windows@.push(w).map_values(|w: KeyWindow| w@) =~= self@.push(w@));
        }
        let mut taken = KeyTable { windows: Vec::new() };
        std::mem::swap(self, &mut taken);
        let mut windows = taken.windows;
        windows.push(w);
        *self = KeyTable { windows };
        Ok(())
    }

    /// The keypair of the window that covers `position`, found by binary search.
    pub fn select_key(&self, position: u64) -> (r: Result<([u8; 32], [u8; 32]), KeyRatchetError>)
        ensures
            match r {
                Ok((pk, sk)) => exists|i: int|
                    0 <= i < self@.len() && covers(#[trigger] self@[i], position) && self@[i].public_key == pk@
                        && self@[i].private_key == sk@,
                Err(e) => e == KeyRatchetError::KeyNotFound && forall|i: int|
                    0 <= i < self@.len() ==> !covers(#[trigger] self@[i], position),
            },
    {
        proof {
            use_type_invariant(self);
        }
        let ghost t = self@;
        let mut lo: usize = 0;
        let mut hi: usize = self.windows.len();
        while lo < hi
            invariant
                t == self@,
                table_wf(t),
                lo <= hi <= t.len(),
                forall|k: int| 0 <= k < lo ==> #[trigger] t[k].start <= position,
                forall|k: int| hi <= k < t.len() ==> #[trigger] t[k].start > position,
            decreases hi - lo,
        {
            let mid = lo + (hi - lo) / 2;
            if self.windows[mid].start <= position {
                proof {
                    assert forall|k: int| 0 <= k < mid + 1 implies #[trigger] t[k].start <= position by {
                        if k < mid {
                            lemma_windows_ordered(t, k, mid as int);
                            assert(t[k].start <= t[k].end);
                        }
                    }
                }
                lo = mid + 1;
            } else {
                proof {
                    assert forall|k: int| mid <= k < t.len() implies #[trigger] t[k].start > position by {
                        if k > mid {
                            lemma_windows_ordered(t, mid as int, k);
                            assert(t[mid as int].start <= t[mid as int].end);
                        }
                    }
                }
                hi = mid;
            }
        }
        if lo == 0 {
            return Err(KeyRatchetError::KeyNotFound);
        }
        let w = self.windows[lo - 1];
        if position < w.end {
            assert(covers(t[lo - 1], position));
            Ok((w.public_key, w.private_key))
        } else {
            proof {
                assert forall|i: int| 0 <= i < t.len() implies !covers(#[trigger] t[i], position) by {
                    if i < lo - 1 {
                        lemma_windows_ordered(t, i, lo - 1);
                    }
                }
            }
            Err(KeyRatchetError::KeyNotFound)
        }
    }

    /// Appends the table's encoding to `out`.
    pub fn encode_into(&self, out: &mut Vec<u8>)
        ensures
            final(out)@ == old(out)@ + key_table_bytes(self@),
            table_wf(self@),
            key_windows_valid(self@),
    {
        proof {
            use_type_invariant(self);
        }
        let ghost start = out@;
        let ghost t = self@;
        write_varint(out, self.windows.len() as u64);
        let ghost head = out@;
        let mut i: usize = 0;
        while i < self.windows.len()
            invariant
                t == self@,
                i <= t.len(),
                head == start + varint_bytes(t.len() as u64),
                out@ == head + key_windows_bytes(t.subrange(0, i as int)),
            decreases t.len() - i,
        {
            let w = self.windows[i];
            let ghost before = out@;
            write_varint(out, w.start);
            write_varint(out, w.end);
            push_bytes(out, &w.public_key);
            push_bytes(out, &w.private_key);
            proof {
                let u = t.subrange(0, i + 1);
                assert(u.drop_last() =~= t.subrange(0, i as int));
                assert(u.last() == w@);
                assert(out@ =~= before + key_window_bytes(w@));
            }
            i = i + 1;
        }
        assert(t.subrange(0, t.len() as int) =~= t);
        assert(out@ =~= start + key_table_bytes(t));
    }

    /// Reads a table that starts at offset `p` of `s`.
    pub fn parse(s: &[u8], p: usize) -> (r: Result<(KeyTable, usize), FormatError>)
        ensures
            match r {
                Ok((v, q)) => parse_key_table(s@, p as int) == Ok::<(Seq<KeyWindowView>, int), FormatError>((v@, q as int)),
                Err(e) => parse_key_table(s@, p as int) == Err::<(Seq<KeyWindowView>, int), FormatError>(e),
            },
    {
        let (n, q0) = match read_varint(s, p) {
            Ok(x) => x,
            Err(e) => return Err(e),
        };
        let mut windows: Vec<KeyWindow> = Vec::new();
        let mut q: usize = q0;
        let mut i: u64 = 0;
        assert(windows@.map_values(|w: KeyWindow| w@) =~= Seq::<KeyWindowView>::empty());
        while i < n
            invariant
                i <= n,
                parse_varint(s@, p as int) == Ok::<(u64, int), FormatError>((n, q0 as int)),
                parse_key_windows(s@, q0 as int, i as nat) == Ok::<(Seq<KeyWindowView>, int), FormatError>(
                    (windows@.map_values(|w: KeyWindow| w@), q as int),
                ),
            decreases n - i,
        {
            let ghost prev = windows@.map_values(|w: KeyWindow| w@);
            let (start, q1) = match read_varint(s, q) {
                Ok(x) => x,
                Err(e) => {
                    proof {
                        lemma_parse_key_windows_fails_on(s@, q0 as int, (i + 1) as nat, n as nat);
                    }
                    return Err(e);
                },
            };
            let (end, q2) = match read_varint(s, q1) {
                Ok(x) => x,
                Err(e) => {
                    proof {
                        lemma_parse_key_windows_fails_on(s@, q0 as int, (i + 1) as nat, n as nat);
                    }
                    return Err(e);
                },
            };
            if q2 > s.len() || 64 > s.len() - q2 {
                proof {
                    lemma_parse_key_windows_fails_on(s@, q0 as int, (i + 1) as nat, n as nat);
                }
                return Err(FormatError::Truncated);
            }
            let public_key: [u8; 32] = read_array(s, q2);
            let private_key: [u8; 32] = read_array(s, q2 + 32);
            let w = KeyWindow { start, end, public_key, private_key };
            windows.push(w);
            proof {
                assert(windows@.map_values(|w: KeyWindow| w@) =~= prev.push(w@));
            }
            q = q2 + 64;
            i = i + 1;
        }
        let ghost t = windows@.map_values(|w: KeyWindow| w@);
        let mut j: usize = 0;
        while j < windows.len()
            invariant
                t == windows@.map_values(|w: KeyWindow| w@),
                parse_varint(s@, p as int) == Ok::<(u64, int), FormatError>((n, q0 as int)),
                parse_key_windows(s@, q0 as int, n as nat) == Ok::<(Seq<KeyWindowView>, int), FormatError>((t, q as int)),
                j <= windows@.len(),
                forall|k: int| 0 <= k < j ==> #[trigger] t[k].start <= t[k].end,
                forall|k: int| 0 < k < j ==> #[trigger] t[k].start == t[k - 1].end,
            decreases windows@.len() - j,
        {
            if windows[j].start > windows[j].end || (j > 0 && windows[j].start != windows[j - 1].end) {
                assert(!table_wf(t)) by {
                    assert(t[j as int].start > t[j as int].end || t[j as int].start != t[j - 1].end);
                }
                return Err(FormatError::InvalidWindow);
            }
            j = j + 1;
        }
        let table = KeyTable { windows };
        Ok((table, q))
    }
}

} // verus!
