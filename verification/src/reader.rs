//! The reader side of one connection: turning a raw socket read into an
//! event, and the chunking that the fixed-size read buffer imposes on a
//! larger payload.

use vstd::prelude::*;
use crate::event::Addr;
use crate::event::Event;

verus! {

/// Size of the fixed read buffer: one blocking read yields at most this many
/// bytes, so a longer payload reaches the dispatcher as several events.
pub const READ_BUFFER_LEN: usize = 128;

/// The disconnect token, the exact bytes of the ASCII text `quit\r\n`.
pub open spec fn quit_token() -> Seq<u8> {
    seq![113u8, 117u8, 105u8, 116u8, 13u8, 10u8]
}

/// True exactly when `bytes` is the disconnect token.
///
/// The comparison is on raw bytes: the token's text is ASCII, so a read
/// equals it as UTF-8 text exactly when the bytes match, and no read needs
/// decoding first.
pub fn is_quit_token(bytes: &Vec<u8>) -> (r: bool)
    ensures
        r <==> bytes@ == quit_token(),
{
    if bytes.len() != 6 {
        return false;
    }
    let r = bytes[0] == 113 && bytes[1] == 117 && bytes[2] == 105 && bytes[3] == 116
        && bytes[4] == 13 && bytes[5] == 10;
    proof {
        if r {
            assert(bytes@ =~= quit_token());
        }
    }
    r
}

/// Classify the bytes of one non-empty read from the connection at `addr`:
/// the disconnect token ends the connection, anything else is a broadcast
/// payload carried verbatim.
pub fn classify_read(bytes: Vec<u8>, addr: Addr) -> (e: Event)
    ensures
        bytes@ == quit_token() ==> e == Event::Disconnected(addr),
        bytes@ != quit_token() ==> (e matches Event::Received(p, a) && p@ == bytes@ && a
            == addr),
{
    if is_quit_token(&bytes) {
        Event::Disconnected(addr)
    } else {
        Event::Received(bytes, addr)
    }
}

/// How a payload is cut by reads of at most `READ_BUFFER_LEN` bytes: full
/// chunks, then whatever remains. An empty payload yields no read at all.
pub open spec fn chunks_of(data: Seq<u8>) -> Seq<Seq<u8>>
    decreases data.len(),
{
    if data.len() == 0 {
        Seq::empty()
    } else if data.len() <= READ_BUFFER_LEN {
        seq![data]
    } else {
        seq![data.take(READ_BUFFER_LEN as int)] + chunks_of(data.skip(READ_BUFFER_LEN as int))
    }
}

/// Concatenating the chunks gives the payload back: chunking loses and
/// reorders nothing.
pub proof fn lemma_chunks_flatten(data: Seq<u8>)
    ensures
        chunks_of(data).flatten() == data,
    decreases data.len(),
{
    if data.len() == 0 {
        assert(chunks_of(data).flatten() =~= data);
    } else if data.len() <= READ_BUFFER_LEN {
        seq![data].lemma_flatten_one_element();
        assert(chunks_of(data).flatten() =~= data);
    } else {
        let head = data.take(READ_BUFFER_LEN as int);
        let tail = data.skip(READ_BUFFER_LEN as int);
        lemma_chunks_flatten(tail);
        assert(chunks_of(data) =~= seq![head] + chunks_of(tail));
        vstd::seq_lib::lemma_flatten_concat(seq![head], chunks_of(tail));
        seq![head].lemma_flatten_one_element();
        assert(head + tail =~= data);
    }
}

/// The number of reads a payload takes: one per started block of
/// `READ_BUFFER_LEN` bytes. A payload of exactly `READ_BUFFER_LEN` bytes is a
/// single read; one byte more begins a second.
pub proof fn lemma_chunks_count(data: Seq<u8>)
    ensures
        chunks_of(data).len() == (data.len() + READ_BUFFER_LEN - 1) / (READ_BUFFER_LEN as int),
    decreases data.len(),
{
    if data.len() > READ_BUFFER_LEN {
        lemma_chunks_count(data.skip(READ_BUFFER_LEN as int));
    }
}

/// Every chunk is a read's worth: non-empty and at most `READ_BUFFER_LEN`
/// bytes, and every chunk before the last is exactly full.
pub proof fn lemma_chunks_sizes(data: Seq<u8>)
    ensures
        forall|i: int|
            0 <= i < chunks_of(data).len() ==> 0 < (#[trigger] chunks_of(data)[i]).len()
                <= READ_BUFFER_LEN,
        forall|i: int|
            0 <= i < chunks_of(data).len() - 1 ==> (#[trigger] chunks_of(data)[i]).len()
                == READ_BUFFER_LEN,
    decreases data.len(),
{
    let c = chunks_of(data);
    if data.len() == 0 {
    } else if data.len() <= READ_BUFFER_LEN {
        assert(c =~= seq![data]);
        assert(c[0] == data);
    } else {
        let tail = data.skip(READ_BUFFER_LEN as int);
        lemma_chunks_sizes(tail);
        assert(c =~= seq![data.take(READ_BUFFER_LEN as int)] + chunks_of(tail));
        assert forall|i: int| 0 <= i < c.len() implies 0 < (#[trigger] c[i]).len()
            <= READ_BUFFER_LEN by {
            if i > 0 {
                assert(c[i] == chunks_of(tail)[i - 1]);
            }
        }
        assert forall|i: int| 0 <= i < c.len() - 1 implies (#[trigger] c[i]).len()
            == READ_BUFFER_LEN by {
            if i > 0 {
                assert(c[i] == chunks_of(tail)[i - 1]);
            }
        }
    }
}

/// Copy `data[start..end]` into a fresh vector.
fn copy_range(data: &Vec<u8>, start: usize, end: usize) -> (r: Vec<u8>)
    requires
        start <= end <= data@.len(),
    ensures
        r@ == data@.subrange(start as int, end as int),
{
    let mut out: Vec<u8> = Vec::new();
    let mut i: usize = start;
    while i < end
        invariant
            start <= i <= end <= data@.len(),
            out@ == data@.subrange(start as int, i as int),
        decreases end - i,
    {
        out.push(data[i]);
        proof {
            assert(out@ =~= data@.subrange(start as int, i + 1));
        }
        i = i + 1;
    }
    out
}

/// Cut a payload into the reads it would arrive as: chunks of
/// `READ_BUFFER_LEN` bytes, the last possibly shorter, none empty.
pub fn chunk_payload(data: &Vec<u8>) -> (r: Vec<Vec<u8>>)
    ensures
        r@.map_values(|c: Vec<u8>| c@) == chunks_of(data@),
{
    let mut out: Vec<Vec<u8>> = Vec::new();
    let mut i: usize = 0;
    proof {
        assert(data@.skip(0) =~= data@);
        assert(out@.map_values(|c: Vec<u8>| c@) + chunks_of(data@) =~= chunks_of(data@));
    }
    while i < data.len()
        invariant
            i <= data@.len(),
            chunks_of(data@) == out@.map_values(|c: Vec<u8>| c@) + chunks_of(
                data@.skip(i as int),
            ),
        decreases data@.len() - i,
    {
        let ghost prev = out@;
        let ghost rest = data@.skip(i as int);
        if data.len() - i <= READ_BUFFER_LEN {
            let chunk = copy_range(data, i, data.len());
            proof {
                assert(chunk@ =~= rest);
            }
            out.push(chunk);
            proof {
                assert(chunks_of(rest) =~= seq![rest]);
                assert(out@.map_values(|c: Vec<u8>| c@) =~= prev.map_values(|c: Vec<u8>| c@)
                    + seq![rest]);
                assert(chunks_of(data@.skip(data@.len() as int)) =~= Seq::<Seq<u8>>::empty());
                assert(chunks_of(data@) =~= out@.map_values(|c: Vec<u8>| c@));
            }
            i = data.len();
        } else {
            let chunk = copy_range(data, i, i + READ_BUFFER_LEN);
            proof {
                assert(chunk@ =~= rest.take(READ_BUFFER_LEN as int));
            }
            out.push(chunk);
            proof {
                assert(rest.skip(READ_BUFFER_LEN as int) =~= data@.skip(
                    i + READ_BUFFER_LEN,
                ));
                assert(chunks_of(rest) =~= seq![chunk@] + chunks_of(
                    data@.skip(i + READ_BUFFER_LEN),
                ));
                assert(out@.map_values(|c: Vec<u8>| c@) =~= prev.map_values(|c: Vec<u8>| c@)
                    + seq![chunk@]);
                assert(out@.map_values(|c: Vec<u8>| c@) + chunks_of(data@.skip(i + READ_BUFFER_LEN))
                    =~= prev.map_values(|c: Vec<u8>| c@) + chunks_of(rest));
            }
            i = i + READ_BUFFER_LEN;
        }
    }
    proof {
        assert(chunks_of(data@.skip(i as int)) =~= Seq::<Seq<u8>>::empty());
        assert(chunks_of(data@) =~= out@.map_values(|c: Vec<u8>| c@));
    }
    out
}

} // verus!
