use vstd::prelude::*;

use crate::error::Error;
use std::collections::VecDeque;

verus! {

// ---------------------------------------------------------------------------
// Trusted view of the `bytes` crate.
//
// A `BytesMut` is a growable, splittable byte buffer and a `Bytes` an
// immutable one; to the verifier both are opaque, so each gets a name for
// the byte sequence it holds, and every method the logic calls gets a
// wrapper whose contract states what the crate's source shows.
// ---------------------------------------------------------------------------

#[verifier::external_type_specification]
#[verifier::external_body]
pub struct ExBytesMut(bytes::BytesMut);

#[verifier::external_type_specification]
#[verifier::external_body]
pub struct ExBytes(bytes::Bytes);

/// The bytes held by a `bytes::BytesMut`, in order.
pub uninterp spec fn bytes_mut_view(b: bytes::BytesMut) -> Seq<u8>;

/// The bytes held by a `bytes::Bytes`, in order.
pub uninterp spec fn bytes_view(b: bytes::Bytes) -> Seq<u8>;

/// Relies on bytes::BytesMut::with_capacity: the returned buffer is empty
/// (capacity is an allocation hint, not content).
#[verifier::external_body]
fn chunk_with_capacity(capacity: usize) -> (b: bytes::BytesMut)
    ensures
        bytes_mut_view(b) == Seq::<u8>::empty(),
{
    bytes::BytesMut::with_capacity(capacity)
}

/// Relies on bytes::BytesMut::len: the number of bytes held.
#[verifier::external_body]
fn chunk_len(b: &bytes::BytesMut) -> (n: usize)
    ensures
        n == bytes_mut_view(*b).len(),
{
    b.len()
}

/// Relies on bytes::BytesMut::split_to: removes and returns the prefix
/// `[0, at)`, leaving `[at, len)` behind; panics if `at` exceeds the
/// length, so that input is excluded.
#[verifier::external_body]
fn chunk_split_to(b: &mut bytes::BytesMut, at: usize) -> (prefix: bytes::BytesMut)
    requires
        at <= bytes_mut_view(*old(b)).len(),
    ensures
        bytes_mut_view(prefix) == bytes_mut_view(*old(b)).take(at as int),
        bytes_mut_view(*final(b)) == bytes_mut_view(*old(b)).skip(at as int),
{
    b.split_to(at)
}

/// Relies on bytes::BytesMut::unsplit: absorbs the other buffer, so the
/// result holds this buffer's bytes followed by the other's.
#[verifier::external_body]
fn chunk_unsplit(b: &mut bytes::BytesMut, other: bytes::BytesMut)
    ensures
        bytes_mut_view(*final(b)) == bytes_mut_view(*old(b)) + bytes_mut_view(other),
{
    b.unsplit(other)
}

/// Relies on bytes::BytesMut::freeze: converts to an immutable `Bytes`
/// holding the same bytes.
#[verifier::external_body]
fn chunk_freeze(b: bytes::BytesMut) -> (r: bytes::Bytes)
    ensures
        bytes_view(r) == bytes_mut_view(b),
{
    b.freeze()
}

// ---------------------------------------------------------------------------
// The read model: what one read does to the stream of queued bytes.
// ---------------------------------------------------------------------------

/// The number of bytes a read of `size` takes from a stream `s`: `size`
/// when at least that much is queued, everything that is queued otherwise.
pub open spec fn read_count(s: Seq<u8>, size: nat) -> int {
    if size <= s.len() {
        size as int
    } else {
        s.len() as int
    }
}

/// The bytes a read of `size` returns from a stream `s`.
pub open spec fn read_taken(s: Seq<u8>, size: nat) -> Seq<u8> {
    s.take(read_count(s, size))
}

/// The stream a read of `size` leaves behind.
pub open spec fn read_left(s: Seq<u8>, size: nat) -> Seq<u8> {
    s.skip(read_count(s, size))
}

/// When a read of `size` from a stream `s` under closed flag `closed`
/// fails with EOF: a positive request on a drained, closed stream.
pub open spec fn read_eofs(s: Seq<u8>, closed: bool, size: nat) -> bool {
    size > 0 && s.len() == 0 && closed
}

// ---------------------------------------------------------------------------
// The buffer itself.
// ---------------------------------------------------------------------------

/// A FIFO byte buffer: an ordered queue of chunks plus a closed flag.
///
/// Bytes are read in exactly the order they were written; a read may split
/// the front chunk, leaving the unread remainder queued. Once `eof` has
/// been called and every byte has been drained, reads fail with
/// [`crate::Error::EOF`] forever.
pub struct Buffer {
    elements: VecDeque<bytes::BytesMut>,
    closed: bool,
}

impl Buffer {
    /// The queued chunks, front first, each as its byte sequence.
    pub closed spec fn queued(&self) -> Seq<Seq<u8>> {
        self.elements@.map_values(|c: bytes::BytesMut| bytes_mut_view(c))
    }

    /// The readable stream: the queued chunks' bytes, in write order.
    pub open spec fn stream(&self) -> Seq<u8> {
        self.queued().flatten()
    }

    /// Whether `eof` has been called.
    pub closed spec fn is_closed(&self) -> bool {
        self.closed
    }

    /// Creates an empty, open buffer.
    pub fn new() -> (b: Buffer)
        ensures
            b.queued() == Seq::<Seq<u8>>::empty(),
            b.stream() == Seq::<u8>::empty(),
            !b.is_closed(),
    {
        let b = Buffer { elements: VecDeque::new(), closed: false };
        proof {
            assert(b.queued() =~= Seq::<Seq<u8>>::empty());
        }
        b
    }

    /// Appends a chunk to the tail of the queue. The stream grows by
    /// exactly the chunk's bytes; the closed flag is untouched.
    ///
    /// A write after `eof` is not rejected: it appends like any other,
    /// and correct callers simply stop writing once they close.
    pub fn write(&mut self, bytes: bytes::BytesMut)
        ensures
            final(self).queued() == old(self).queued().push(bytes_mut_view(bytes)),
            final(self).stream() == old(self).stream() + bytes_mut_view(bytes),
            final(self).is_closed() == old(self).is_closed(),
    {
        let ghost pre = *self;
        self.elements.push_back(bytes);
        proof {
            assert(self.queued() =~= pre.queued().push(bytes_mut_view(bytes)));
            pre.queued().lemma_flatten_push(bytes_mut_view(bytes));
            assert(self.stream() =~= pre.stream() + bytes_mut_view(bytes));
        }
    }

    /// Marks the stream closed: no more data will ever arrive. Idempotent;
    /// the queued chunks are untouched.
    pub fn eof(&mut self)
        ensures
            final(self).is_closed(),
            final(self).queued() == old(self).queued(),
            final(self).stream() == old(self).stream(),
    {
        self.closed = true;
    }

    /// True once `eof` has been called.
    pub fn closed(&self) -> (r: bool)
        ensures
            r == self.is_closed(),
    {
        self.closed
    }

    /// True when at least one readable byte is queued.
    pub fn has_data(&self) -> (r: bool)
        ensures
            r == (self.stream().len() > 0),
    {
        let n = self.elements.len();
        let mut i: usize = 0;
        while i < n
            invariant
                n == self.elements@.len(),
                i <= n,
                forall|j: int| 0 <= j < i ==> self.queued()[j].len() == 0,
            decreases n - i,
        {
            if chunk_len(&self.elements[i]) > 0 {
                proof {
                    let qs = self.queued();
                    qs.lemma_flatten_and_flatten_alt_are_equivalent();
                    qs.lemma_flatten_length_ge_single_element_length(i as int);
                }
                return true;
            }
            i += 1;
        }
        proof {
            lemma_flatten_len_zero(self.queued());
        }
        false
    }

    /// Reads up to `size` bytes from the front of the stream.
    ///
    /// Returns exactly `size` bytes when the stream holds at least that
    /// many; otherwise returns every byte currently queued, splitting the
    /// front chunk where the request ends. A positive request on a
    /// drained, closed stream fails with [`Error::EOF`]. A positive
    /// request on a drained, open stream is excluded: it has no immediate
    /// answer, and a blocking caller waits for a writer before asking
    /// (see [`Self::try_read`]).
    pub fn read(&mut self, size: usize) -> (r: Result<bytes::Bytes, Error>)
        requires
            size == 0 || old(self).stream().len() > 0 || old(self).is_closed(),
        ensures
            final(self).is_closed() == old(self).is_closed(),
            final(self).stream() == read_left(old(self).stream(), size as nat),
            r is Err <==> read_eofs(old(self).stream(), old(self).is_closed(), size as nat),
            r matches Ok(b) ==> bytes_view(b) == read_taken(old(self).stream(), size as nat),
            r matches Err(e) ==> e == Error::EOF,
    {
        let ghost s0 = old(self).stream();
        let ghost closed0 = old(self).is_closed();
        let mut out = chunk_with_capacity(size);
        let mut out_len: usize = 0;

        while out_len < size && self.elements.len() > 0
            invariant
                out_len == bytes_mut_view(out).len(),
                out_len <= size,
                bytes_mut_view(out) + self.stream() == s0,
                self.is_closed() == closed0,
            decreases self.elements@.len() + size - out_len,
        {
            let ghost qs = self.queued();
            let mut head = self.elements.pop_front().unwrap();
            let ghost h0 = bytes_mut_view(head);
            proof {
                assert(qs[0] == h0);
                assert(self.queued() =~= qs.drop_first());
                assert(qs.flatten() == qs.first() + qs.drop_first().flatten());
            }
            let head_len = chunk_len(&head);
            let need = size - out_len;
            let take_n = if head_len < need {
                head_len
            } else {
                need
            };
            let piece = chunk_split_to(&mut head, take_n);
            let ghost out_pre = bytes_mut_view(out);
            chunk_unsplit(&mut out, piece);
            out_len = out_len + take_n;
            if chunk_len(&head) > 0 {
                let ghost rest = self.queued();
                self.elements.push_front(head);
                proof {
                    assert(self.queued() =~= seq![h0.skip(take_n as int)] + rest);
                    assert(self.queued().first() == h0.skip(take_n as int));
                    assert(self.queued().drop_first() =~= rest);
                    assert(self.stream() == h0.skip(take_n as int) + rest.flatten());
                    assert(bytes_mut_view(out) + self.stream() =~= s0);
                }
            } else {
                proof {
                    assert(h0.take(take_n as int) =~= h0);
                    assert(bytes_mut_view(out) + self.stream() =~= s0);
                }
            }
        }

        if size > 0 && out_len == 0 {
            proof {
                assert(self.queued() =~= Seq::<Seq<u8>>::empty());
                assert(self.stream() =~= Seq::<u8>::empty());
                assert(s0 =~= Seq::<u8>::empty());
                assert(self.stream() =~= read_left(s0, size as nat));
            }
            return Err(Error::EOF);
        }
        proof {
            assert(bytes_mut_view(out) =~= s0.take(out_len as int));
            if out_len < size {
                assert(self.queued() =~= Seq::<Seq<u8>>::empty());
                assert(self.stream() =~= Seq::<u8>::empty());
                assert(s0.len() == out_len);
            }
            assert(bytes_mut_view(out) =~= read_taken(s0, size as nat));
            assert(self.stream() =~= read_left(s0, size as nat));
        }
        Ok(chunk_freeze(out))
    }

    /// Like [`Self::read`], but never demands that progress be possible:
    /// it returns `None` exactly when a read would have to wait for a
    /// writer (a positive request while the stream is drained but still
    /// open), leaving the buffer untouched.
    pub fn try_read(&mut self, size: usize) -> (r: Option<Result<bytes::Bytes, Error>>)
        ensures
            final(self).is_closed() == old(self).is_closed(),
            r is None <==> size > 0 && old(self).stream().len() == 0 && !old(self).is_closed(),
            r is None ==> final(self).stream() == old(self).stream(),
            r matches Some(inner) ==> {
                &&& final(self).stream() == read_left(old(self).stream(), size as nat)
                &&& inner is Err <==> read_eofs(
                    old(self).stream(),
                    old(self).is_closed(),
                    size as nat,
                )
                &&& inner matches Ok(b) ==> bytes_view(b) == read_taken(
                    old(self).stream(),
                    size as nat,
                )
                &&& inner matches Err(e) ==> e == Error::EOF
            },
    {
        if size > 0 && !self.has_data() && !self.closed() {
            None
        } else {
            Some(self.read(size))
        }
    }
}

/// A stream is empty exactly when every chunk that makes it up is empty.
proof fn lemma_flatten_len_zero(qs: Seq<Seq<u8>>)
    ensures
        qs.flatten().len() == 0 <==> (forall|j: int| 0 <= j < qs.len() ==> qs[j].len() == 0),
    decreases qs.len(),
{
    if qs.len() > 0 {
        lemma_flatten_len_zero(qs.drop_first());
        assert(qs.flatten() == qs.first() + qs.drop_first().flatten());
        if qs.flatten().len() == 0 {
            assert forall|j: int| 0 <= j < qs.len() implies qs[j].len() == 0 by {
                if j > 0 {
                    assert(qs.drop_first()[j - 1] == qs[j]);
                }
            }
        }
        if forall|j: int| 0 <= j < qs.len() ==> qs[j].len() == 0 {
            assert forall|j: int| 0 <= j < qs.drop_first().len() implies qs.drop_first()[j].len()
                == 0 by {
                assert(qs.drop_first()[j] == qs[j + 1]);
            }
        }
    }
}

} // verus!

