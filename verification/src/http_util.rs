//! The cap on bodies that are fetched over HTTP.
//!
//! However trusted a host is, its answers must not fill the memory. A body over
//! the cap is an error and never a truncation: a part of a body must not be
//! read as the whole.
use vstd::prelude::*;

use crate::error::{ServiceError, ServiceErrorView};
use crate::text::{cat, cat3, decimal, decimal_text};

verus! {

/// The greatest number of bytes of a body.
pub const MAX_RESPONSE_BYTES: usize = 1_048_576;

/// The complaint about a body over the cap.
pub open spec fn too_large(what: Seq<char>) -> ServiceErrorView {
    ServiceErrorView::Internal(
        what + " too large (over "@ + decimal_text(MAX_RESPONSE_BYTES as nat) + " bytes)"@,
    )
}

/// Takes in the next chunk of a body, unless the body would exceed the cap.
pub fn append_capped(body: &mut Vec<u8>, chunk: &Vec<u8>, what: &str) -> (r: Result<
    (),
    ServiceError,
>)
    requires
        old(body)@.len() <= MAX_RESPONSE_BYTES,
    ensures
        final(body)@.len() <= MAX_RESPONSE_BYTES,
        match r {
            Ok(_) => old(body)@.len() + chunk@.len() <= MAX_RESPONSE_BYTES && final(body)@ == old(
                body,
            )@ + chunk@,
            Err(e) => old(body)@.len() + chunk@.len() > MAX_RESPONSE_BYTES && e@ == too_large(what@)
                && final(body)@ == old(body)@,
        },
{
    if chunk.len() > MAX_RESPONSE_BYTES - body.len() {
        let head = cat(what, " too large (over ");
        let text = cat3(head.as_str(), decimal(MAX_RESPONSE_BYTES as u64).as_str(), " bytes)");
        return Err(ServiceError::Internal(text));
    }
    let ghost before = body@;
    let mut i: usize = 0;
    while i < chunk.len()
        invariant
            i <= chunk@.len(),
            body@ == before + chunk@.take(i as int),
        decreases chunk@.len() - i,
    {
        body.push(chunk[i]);
        i = i + 1;
        assert(chunk@.take(i as int) == chunk@.take(i - 1).push(chunk@[i - 1]));
        assert(body@ == before + chunk@.take(i as int));
    }
    assert(chunk@.take(i as int) == chunk@);
    Ok(())
}

/// The next piece of a body.
pub enum Chunk {
    /// More of it.
    Data(Vec<u8>),
    /// There is no more.
    End,
    /// Reading failed.
    Failed(String),
}

/// What has been read of a body.
pub enum Reading {
    /// There may be more.
    More(Vec<u8>),
    /// The whole body.
    Whole(Vec<u8>),
}

/// What has been read of a body, as mathematical data.
pub enum ReadingView {
    More(Seq<u8>),
    Whole(Seq<u8>),
}

/// What one more piece makes of a body.
pub open spec fn read_on(body: Seq<u8>, next: Chunk, what: Seq<char>) -> Result<
    ReadingView,
    ServiceErrorView,
> {
    match next {
        Chunk::End => Ok(ReadingView::Whole(body)),
        Chunk::Failed(e) => Err(ServiceErrorView::Internal(what + " read failed: "@ + e@)),
        Chunk::Data(chunk) => if body.len() + chunk@.len() > MAX_RESPONSE_BYTES {
            Err(too_large(what))
        } else {
            Ok(ReadingView::More(body + chunk@))
        },
    }
}

/// The outcome of a step in reading, as mathematical data.
pub open spec fn reading_outcome(r: Result<Reading, ServiceError>) -> Result<
    ReadingView,
    ServiceErrorView,
> {
    match r {
        Ok(Reading::More(b)) => Ok(ReadingView::More(b@)),
        Ok(Reading::Whole(b)) => Ok(ReadingView::Whole(b@)),
        Err(e) => Err(e@),
    }
}

/// Goes one step further in reading a body that is named `what` in complaints. Started with
/// nothing and handed what it read so far, it reads the pieces of a body as `read_all` says.
pub fn read_body_capped(body: Vec<u8>, next: Chunk, what: &str) -> (r: Result<Reading, ServiceError>)
    requires
        body@.len() <= MAX_RESPONSE_BYTES,
    ensures
        reading_outcome(r) == read_on(body@, next, what@),
        r matches Ok(Reading::More(b)) ==> b@.len() <= MAX_RESPONSE_BYTES,
{
    match next {
        Chunk::End => Ok(Reading::Whole(body)),
        Chunk::Failed(e) => Err(
            ServiceError::Internal(cat3(what, " read failed: ", e.as_str())),
        ),
        Chunk::Data(chunk) => {
            let mut body = body;
            match append_capped(&mut body, &chunk, what) {
                Ok(()) => Ok(Reading::More(body)),
                Err(e) => Err(e),
            }
        },
    }
}

/// What becomes of reading one piece after another, until the end or a failure. `None`
/// where there is more to come.
pub open spec fn read_all(body: Seq<u8>, pieces: Seq<Chunk>, what: Seq<char>) -> Option<
    Result<Seq<u8>, ServiceErrorView>,
>
    decreases pieces.len(),
{
    if pieces.len() == 0 {
        None
    } else {
        match read_on(body, pieces[0], what) {
            Ok(ReadingView::More(b)) => read_all(b, pieces.drop_first(), what),
            Ok(ReadingView::Whole(b)) => Some(Ok(b)),
            Err(e) => Some(Err(e)),
        }
    }
}

/// The bytes of all pieces, one after the other.
pub open spec fn all_bytes(pieces: Seq<Chunk>) -> Seq<u8>
    decreases pieces.len(),
{
    if pieces.len() == 0 {
        Seq::empty()
    } else {
        let rest = all_bytes(pieces.drop_first());
        match pieces[0] {
            Chunk::Data(chunk) => chunk@ + rest,
            _ => rest,
        }
    }
}

/// The pieces of a body up to its end, or up to where reading it failed.
pub open spec fn pieces_of_body(pieces: Seq<Chunk>) -> bool {
    &&& pieces.len() > 0
    &&& pieces.last() !is Data
    &&& forall|i: int| 0 <= i < pieces.len() - 1 ==> (#[trigger] pieces[i]) is Data
}

proof fn lemma_read_all(body: Seq<u8>, pieces: Seq<Chunk>, what: Seq<char>)
    requires
        pieces_of_body(pieces),
        body.len() <= MAX_RESPONSE_BYTES,
    ensures
        read_all(body, pieces, what) == Some(
            if body.len() + all_bytes(pieces).len() > MAX_RESPONSE_BYTES {
                Err::<Seq<u8>, ServiceErrorView>(too_large(what))
            } else {
                match pieces.last() {
                    Chunk::Failed(e) => Err(
                        ServiceErrorView::Internal(what + " read failed: "@ + e@),
                    ),
                    _ => Ok(body + all_bytes(pieces)),
                }
            },
        ),
    decreases pieces.len(),
{
    let rest = pieces.drop_first();
    if pieces.len() == 1 {
        assert(all_bytes(rest) =~= Seq::empty());
        assert(body + all_bytes(pieces) =~= body);
    } else {
        assert(pieces[0] is Data);
        let chunk = pieces[0]->Data_0@;
        assert(rest.last() == pieces.last());
        assert forall|i: int| 0 <= i < rest.len() - 1 implies (#[trigger] rest[i]) is Data by {
            assert(rest[i] == pieces[i + 1]);
        }
        if body.len() + chunk.len() <= MAX_RESPONSE_BYTES {
            lemma_read_all(body + chunk, rest, what);
            assert(body + chunk + all_bytes(rest) =~= body + all_bytes(pieces));
        }
    }
}

/// A body is read whole or not at all: reading succeeds exactly where no read failed and
/// all pieces together stay within the cap, and then it gives every byte in order. Over the
/// cap the complaint is that the body is too large, and otherwise that the read failed.
pub proof fn law_bodies_are_read_whole_or_not_at_all(pieces: Seq<Chunk>, what: Seq<char>)
    requires
        pieces_of_body(pieces),
    ensures
        read_all(Seq::empty(), pieces, what) == Some(
            if all_bytes(pieces).len() > MAX_RESPONSE_BYTES {
                Err::<Seq<u8>, ServiceErrorView>(too_large(what))
            } else {
                match pieces.last() {
                    Chunk::Failed(e) => Err(
                        ServiceErrorView::Internal(what + " read failed: "@ + e@),
                    ),
                    _ => Ok(all_bytes(pieces)),
                }
            },
        ),
{
    lemma_read_all(Seq::empty(), pieces, what);
    assert(Seq::<u8>::empty() + all_bytes(pieces) =~= all_bytes(pieces));
}

/// Each piece is put behind what was read before, up to a megabyte in all and not a byte further.
pub proof fn law_pieces_are_joined_up_to_a_megabyte(body: Seq<u8>, chunk: Vec<u8>, what: Seq<char>)
    ensures
        body.len() + chunk@.len() <= 1_048_576 ==> (read_on(
            body,
            Chunk::Data(chunk),
            what,
        ) matches Ok(ReadingView::More(b)) && b == body + chunk@),
        body.len() + chunk@.len() > 1_048_576 ==> read_on(body, Chunk::Data(chunk), what) is Err,
        read_on(body, Chunk::End, what) matches Ok(ReadingView::Whole(b)) && b == body,
        forall|e: String| (#[trigger] read_on(body, Chunk::Failed(e), what)) is Err,
{
}

} // verus!
