use vstd::prelude::*;

use crate::error::HttpError;

verus! {

/// Whether `d` occurs in `s` at index `i`.
pub open spec fn occurs_at(s: Seq<u8>, d: Seq<u8>, i: int) -> bool {
    0 <= i && i + d.len() <= s.len() && s.subrange(i, i + d.len()) == d
}

/// The first index, at `i` or after, at which `d` occurs in `s`.
pub open spec fn find_from(s: Seq<u8>, d: Seq<u8>, i: nat) -> Option<nat>
    decreases s.len() + 1 - i,
{
    if i + d.len() > s.len() {
        None
    } else if s.subrange(i as int, (i + d.len()) as int) == d {
        Some(i)
    } else {
        find_from(s, d, i + 1)
    }
}

/// The first index at which `d` occurs in `s`.
pub open spec fn find(s: Seq<u8>, d: Seq<u8>) -> Option<nat> {
    find_from(s, d, 0)
}

pub proof fn lemma_find_from(s: Seq<u8>, d: Seq<u8>, i: nat)
    ensures
        match find_from(s, d, i) {
            Some(k) => i <= k && occurs_at(s, d, k as int) && forall|j: int|
                i <= j < k ==> !occurs_at(s, d, j),
            None => forall|j: int| i <= j ==> !occurs_at(s, d, j),
        },
    decreases s.len() + 1 - i,
{
    if i + d.len() <= s.len() && s.subrange(i as int, (i + d.len()) as int) != d {
        lemma_find_from(s, d, i + 1);
    }
}

/// An occurrence with none before it is the first.
pub proof fn lemma_find_is(s: Seq<u8>, d: Seq<u8>, k: int)
    requires
        occurs_at(s, d, k),
        forall|j: int| 0 <= j < k ==> !occurs_at(s, d, j),
    ensures
        find(s, d) == Some(k as nat),
{
    lemma_find_from(s, d, 0);
    match find(s, d) {
        Some(k2) => {
            if k2 < k {
                assert(occurs_at(s, d, k2 as int));
            }
            if k2 > k {
                assert(!occurs_at(s, d, k));
            }
        },
        None => {
            assert(!occurs_at(s, d, k));
        },
    }
}

/// A stream of bytes read from the front. It either holds the whole stream,
/// or only what has arrived so far, with more bytes possibly to come.
pub struct Reader {
    buf: Vec<u8>,
    pos: usize,
    more: bool,
}

/// The error for a read that runs past the bytes there are: the message is
/// cut short where the stream is whole, and not complete yet where more
/// bytes may come.
pub open spec fn ended(more: bool) -> HttpError {
    if more {
        HttpError::Incomplete
    } else {
        HttpError::InvalidFormat
    }
}

impl View for Reader {
    /// The bytes not read yet.
    type V = Seq<u8>;

    closed spec fn view(&self) -> Seq<u8> {
        self.buf@.subrange(self.pos as int, self.buf@.len() as int)
    }
}

impl Reader {
    #[verifier::type_invariant]
    spec fn inv(&self) -> bool {
        self.pos <= self.buf@.len()
    }

    /// Whether more bytes may still arrive after those held.
    pub closed spec fn may_grow(&self) -> bool {
        self.more
    }

    /// A reader over `bytes`, the whole stream.
    pub fn new(bytes: Vec<u8>) -> (r: Reader)
        ensures
            r@ == bytes@,
            !r.may_grow(),
    {
        let r = Reader { buf: bytes, pos: 0, more: false };
        assert(r@ =~= bytes@);
        r
    }

    /// A reader over `bytes`, the start of a stream that may go on.
    pub fn partial(bytes: Vec<u8>) -> (r: Reader)
        ensures
            r@ == bytes@,
            r.may_grow(),
    {
        let r = Reader { buf: bytes, pos: 0, more: true };
        assert(r@ =~= bytes@);
        r
    }

    /// How many bytes are left to read.
    pub fn remaining(&self) -> (n: usize)
        ensures
            n == self@.len(),
    {
        proof { use_type_invariant(self); }
        self.buf.len() - self.pos
    }
}

/// A line ending: carriage return, line feed.
pub open spec fn crlf() -> Seq<u8> {
    seq![13u8, 10u8]
}

/// The only protocol version spoken: `HTTP/1.1`.
pub open spec fn http_1_1() -> Seq<u8> {
    seq![72u8, 84u8, 84u8, 80u8, 47u8, 49u8, 46u8, 49u8]
}

impl Reader {
    /// Whether `d` occurs at offset `k` of the unread bytes.
    fn occurs_at_offset(&self, k: usize, d: &[u8]) -> (r: bool)
        ensures
            r == occurs_at(self@, d@, k as int),
    {
        proof { use_type_invariant(self); }
        let n = d.len();
        if self.buf.len() - self.pos < n || self.buf.len() - self.pos - n < k {
            return false;
        }
        let blen = self.buf.len();
        let start = self.pos + k;
        let mut j: usize = 0;
        while j < n
            invariant
                n == d@.len(),
                start == self.pos + k,
                start + n <= self.buf@.len(),
                blen == self.buf@.len(),
                self.pos <= self.buf@.len(),
                j <= n,
                forall|m: int| 0 <= m < j ==> self.buf@[start + m] == d@[m],
            decreases n - j,
        {
            if self.buf[start + j] != d[j] {
                assert(self@.subrange(k as int, k + n)[j as int] != d@[j as int]);
                return false;
            }
            j += 1;
        }
        assert(self@.subrange(k as int, k + n) =~= d@);
        true
    }

    /// Moves the read position `n` bytes on.
    fn advance(&mut self, n: usize)
        requires
            n <= old(self)@.len(),
        ensures
            final(self)@ == old(self)@.skip(n as int),
            final(self).may_grow() == old(self).may_grow(),
    {
        proof { use_type_invariant(&*self); }
        let blen = self.buf.len();
        assert(self@.len() == blen - self.pos);
        self.pos = self.pos + n;
        assert(self@ =~= old(self)@.skip(n as int));
    }

    /// Copies the first `n` unread bytes, without reading them.
    fn peek(&self, n: usize) -> (v: Vec<u8>)
        requires
            n <= self@.len(),
        ensures
            v@ == self@.take(n as int),
    {
        proof { use_type_invariant(self); }
        let blen = self.buf.len();
        assert(self@.len() == blen - self.pos);
        let mut v: Vec<u8> = Vec::with_capacity(n);
        let mut j: usize = 0;
        while j < n
            invariant
                n <= self@.len(),
                self.pos <= self.buf@.len(),
                self@.len() == self.buf@.len() - self.pos,
                blen == self.buf@.len(),
                j <= n,
                v@ == self@.take(j as int),
            decreases n - j,
        {
            v.push(self.buf[self.pos + j]);
            j += 1;
            assert(v@ =~= self@.take(j as int));
        }
        v
    }
}

/// Reads exactly as many bytes as `seq` holds, and fails unless they are
/// the bytes of `seq`. Where fewer are left, fails and reads nothing.
pub fn skip(reader: &mut Reader, seq: &[u8]) -> (r: Result<(), HttpError>)
    ensures
        final(reader).may_grow() == old(reader).may_grow(),
        old(reader)@.len() < seq@.len() ==> r == Err::<(), HttpError>(ended(old(reader).may_grow()))
            && final(reader)@ == old(reader)@,
        old(reader)@.len() >= seq@.len() ==> final(reader)@ == old(reader)@.skip(seq@.len() as int),
        old(reader)@.len() >= seq@.len() && seq@.is_prefix_of(old(reader)@) ==> r is Ok,
        old(reader)@.len() >= seq@.len() && !seq@.is_prefix_of(old(reader)@) ==> r == Err::<
            (),
            HttpError,
        >(HttpError::InvalidFormat),
{
    proof { use_type_invariant(&*reader); }
    if reader.remaining() < seq.len() {
        return Err(if reader.more {
            HttpError::Incomplete
        } else {
            HttpError::InvalidFormat
        });
    }
    if reader.occurs_at_offset(0, seq) {
        assert(seq@.is_prefix_of(old(reader)@));
        reader.advance(seq.len());
        Ok(())
    } else {
        assert(!(old(reader)@.subrange(0, seq@.len() as int) =~= seq@));
        reader.advance(seq.len());
        Err(HttpError::InvalidFormat)
    }
}

/// Reads up to and including the first occurrence of `seq`, and returns the
/// bytes before it. Fails, reading nothing, if `seq` does not occur.
pub fn until(reader: &mut Reader, seq: &[u8]) -> (r: Result<Vec<u8>, HttpError>)
    ensures
        final(reader).may_grow() == old(reader).may_grow(),
        match find(old(reader)@, seq@) {
            Some(k) => k + seq@.len() <= old(reader)@.len() && r is Ok && r->Ok_0@ == old(reader)@.take(k as int) && final(reader)@ == old(reader)@.skip((k + seq@.len()) as int),
            None => r == Err::<Vec<u8>, HttpError>(ended(old(reader).may_grow())) && final(reader)@ == old(reader)@,
        },
{
    proof { use_type_invariant(&*reader); }
    let short = if reader.more {
        HttpError::Incomplete
    } else {
        HttpError::InvalidFormat
    };
    let n = seq.len();
    let len = reader.remaining();
    let ghost s = reader@;
    proof { lemma_find_from(s, seq@, 0); }
    if n > len {
        assert(find_from(s, seq@, 0) is None);
        return Err(short);
    }
    let last = len - n;
    let mut k: usize = 0;
    loop
        invariant
            s == reader@,
            s == old(reader)@,
            *reader == *old(reader),
            short == ended(old(reader).may_grow()),
            len == s.len(),
            n == seq@.len(),
            k <= last,
            last + n == len,
            find(s, seq@) == find_from(s, seq@, k as nat),
        decreases last - k,
    {
        if reader.occurs_at_offset(k, seq) {
            assert(find_from(s, seq@, k as nat) == Some(k as nat));
            let v = reader.peek(k);
            reader.advance(k + n);
            return Ok(v);
        }
        assert(find_from(s, seq@, k as nat) == find_from(s, seq@, (k + 1) as nat));
        if k == last {
            assert(find_from(s, seq@, (k + 1) as nat) is None);
            return Err(short);
        }
        k += 1;
    }
}

/// Reads the 8 bytes of the protocol version, which must be `HTTP/1.1`.
/// Where fewer are left, fails and reads nothing.
pub fn http_version(reader: &mut Reader) -> (r: Result<(), HttpError>)
    ensures
        final(reader).may_grow() == old(reader).may_grow(),
        old(reader)@.len() < 8 ==> r == Err::<(), HttpError>(ended(old(reader).may_grow())) && final(reader)@
            == old(reader)@,
        old(reader)@.len() >= 8 ==> final(reader)@ == old(reader)@.skip(8),
        old(reader)@.len() >= 8 && http_1_1().is_prefix_of(old(reader)@) ==> r is Ok,
        old(reader)@.len() >= 8 && !http_1_1().is_prefix_of(old(reader)@) ==> r == Err::<(), HttpError>(HttpError::UnsupportedHttp),
{
    proof { use_type_invariant(&*reader); }
    let version: [u8; 8] = [72, 84, 84, 80, 47, 49, 46, 49];
    assert(version@ == http_1_1());
    if reader.remaining() < 8 {
        return Err(if reader.more {
            HttpError::Incomplete
        } else {
            HttpError::InvalidFormat
        });
    }
    if reader.occurs_at_offset(0, &version) {
        assert(http_1_1().is_prefix_of(old(reader)@));
        reader.advance(8);
        Ok(())
    } else {
        assert(!(old(reader)@.subrange(0, 8) =~= http_1_1()));
        reader.advance(8);
        Err(HttpError::UnsupportedHttp)
    }
}

/// The next byte, without reading it.
pub fn peek_byte(reader: &Reader) -> (r: Option<u8>)
    ensures
        reader@.len() > 0 ==> r == Some(reader@[0]),
        reader@.len() == 0 ==> r is None,
{
    proof { use_type_invariant(reader); }
    if reader.pos < reader.buf.len() {
        Some(reader.buf[reader.pos])
    } else {
        None
    }
}

/// Reads exactly `n` bytes; fails, reading nothing, if fewer are left.
pub fn take(reader: &mut Reader, n: usize) -> (r: Result<Vec<u8>, HttpError>)
    ensures
        final(reader).may_grow() == old(reader).may_grow(),
        n <= old(reader)@.len() ==> r is Ok && r->Ok_0@ == old(reader)@.take(n as int) && final(reader)@ == old(reader)@.skip(n as int),
        n > old(reader)@.len() ==> r == Err::<Vec<u8>, HttpError>(ended(old(reader).may_grow())) && final(reader)@ == old(reader)@,
{
    proof { use_type_invariant(&*reader); }
    if reader.remaining() < n {
        return Err(if reader.more {
            HttpError::Incomplete
        } else {
            HttpError::InvalidFormat
        });
    }
    let v = reader.peek(n);
    reader.advance(n);
    Ok(v)
}

} // verus!
