use vstd::prelude::*;

use crate::buffer::{read_eofs, read_left, read_taken};

verus! {

// ---------------------------------------------------------------------------
// Laws of the buffer, stated over the same read model that the contracts
// of `Buffer::write` and `Buffer::read` use. A run of writes or reads is a
// sequence of the per-call transitions those contracts state.
// ---------------------------------------------------------------------------

/// The stream after writing `chunks`, in order, onto a stream `s`: each
/// write appends its chunk's bytes (the contract of `Buffer::write`).
pub open spec fn stream_after_writes(s: Seq<u8>, chunks: Seq<Seq<u8>>) -> Seq<u8>
    decreases chunks.len(),
{
    if chunks.len() == 0 {
        s
    } else {
        stream_after_writes(s + chunks.first(), chunks.drop_first())
    }
}

/// The concatenation of the results of successive reads of `sizes` from a
/// stream `s`: each read returns `read_taken` and leaves `read_left` (the
/// contract of `Buffer::read`).
pub open spec fn reads_gathered(s: Seq<u8>, sizes: Seq<nat>) -> Seq<u8>
    decreases sizes.len(),
{
    if sizes.len() == 0 {
        Seq::empty()
    } else {
        read_taken(s, sizes.first()) + reads_gathered(
            read_left(s, sizes.first()),
            sizes.drop_first(),
        )
    }
}

/// The stream left after successive reads of `sizes` from a stream `s`.
pub open spec fn reads_left(s: Seq<u8>, sizes: Seq<nat>) -> Seq<u8>
    decreases sizes.len(),
{
    if sizes.len() == 0 {
        s
    } else {
        reads_left(read_left(s, sizes.first()), sizes.drop_first())
    }
}

/// Writes concatenate: writing `chunks` in order onto a stream `s` leaves
/// the stream `s ++ chunks[0] ++ ... ++ chunks[n-1]`.
pub proof fn lemma_writes_concatenate(s: Seq<u8>, chunks: Seq<Seq<u8>>)
    ensures
        stream_after_writes(s, chunks) == s + chunks.flatten(),
    decreases chunks.len(),
{
    if chunks.len() == 0 {
        assert(s + chunks.flatten() =~= s);
    } else {
        lemma_writes_concatenate(s + chunks.first(), chunks.drop_first());
        assert((s + chunks.first()) + chunks.drop_first().flatten() =~= s + chunks.flatten());
    }
}

/// Reads split the stream: however the reads are chunked, what they
/// gathered followed by what they left is the stream they started from.
pub proof fn lemma_reads_split(s: Seq<u8>, sizes: Seq<nat>)
    ensures
        reads_gathered(s, sizes) + reads_left(s, sizes) == s,
    decreases sizes.len(),
{
    if sizes.len() == 0 {
        assert(reads_gathered(s, sizes) + reads_left(s, sizes) =~= s);
    } else {
        let rest = read_left(s, sizes.first());
        lemma_reads_split(rest, sizes.drop_first());
        assert(read_taken(s, sizes.first()) + (reads_gathered(rest, sizes.drop_first())
            + reads_left(rest, sizes.drop_first())) =~= s);
        assert(reads_gathered(s, sizes) + reads_left(s, sizes) =~= s);
    }
}

/// Order preservation: after writing `chunks` into an empty buffer, any
/// pattern of reads that drains the stream returns, in concatenation,
/// exactly `chunks[0] ++ ... ++ chunks[n-1]`.
pub proof fn lemma_order_preservation(chunks: Seq<Seq<u8>>, sizes: Seq<nat>)
    requires
        reads_left(stream_after_writes(Seq::empty(), chunks), sizes).len() == 0,
    ensures
        reads_gathered(stream_after_writes(Seq::empty(), chunks), sizes) == chunks.flatten(),
{
    let s = stream_after_writes(Seq::empty(), chunks);
    lemma_writes_concatenate(Seq::empty(), chunks);
    assert(s =~= chunks.flatten());
    lemma_reads_split(s, sizes);
    assert(reads_gathered(s, sizes) =~= s);
}

/// Exact-size satisfaction: a read of `size` from a stream that holds at
/// least `size` bytes returns exactly `size` bytes.
pub proof fn lemma_exact_size(s: Seq<u8>, size: nat)
    requires
        s.len() >= size,
    ensures
        read_taken(s, size).len() == size,
{
}

/// Partial-read short-circuit: a read of `size` from a stream that holds
/// fewer than `size` bytes but at least one returns everything queued at
/// once, leaving the stream empty, rather than waiting for more.
pub proof fn lemma_partial_read(s: Seq<u8>, size: nat)
    requires
        0 < s.len() < size,
    ensures
        read_taken(s, size) == s,
        read_left(s, size).len() == 0,
{
    assert(read_taken(s, size) =~= s);
}

/// EOF terminality: a read that fails with EOF leaves the stream empty
/// and the flag closed, so every later read of a positive size fails with
/// EOF as well.
pub proof fn lemma_eof_terminal(s: Seq<u8>, closed: bool, size: nat, later: nat)
    requires
        read_eofs(s, closed, size),
        later > 0,
    ensures
        read_eofs(read_left(s, size), closed, later),
{
}

/// Close-then-drain: after writing `chunks` into an empty buffer and
/// closing it, any pattern of reads that drains the stream yields exactly
/// the written bytes in order, and the next read of a positive size fails
/// with EOF.
pub proof fn lemma_close_then_drain(chunks: Seq<Seq<u8>>, sizes: Seq<nat>, later: nat)
    requires
        reads_left(stream_after_writes(Seq::empty(), chunks), sizes).len() == 0,
        later > 0,
    ensures
        reads_gathered(stream_after_writes(Seq::empty(), chunks), sizes) == chunks.flatten(),
        read_eofs(reads_left(stream_after_writes(Seq::empty(), chunks), sizes), true, later),
{
    lemma_order_preservation(chunks, sizes);
}

} // verus!
