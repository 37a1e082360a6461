use vstd::prelude::*;
use crate::handles::HandleTable;
use crate::path::{resolve, BucketAndKey};

verus! {

/// Why a transfer operation did not succeed.
#[derive(Clone, Copy, Debug, PartialEq, Eq, Structural)]
pub enum TransferError {
    /// The path names no container, or its bytes are not valid UTF-8.
    InvalidPath,
    /// The object could not be found or read.
    NotFound,
    /// The destination is smaller than the object.
    BufferTooSmall,
    /// The object store did not accept the upload.
    UploadFailed,
    /// The caller broke the calling convention: a null pointer, or a path
    /// whose length is not the declared one.
    InvalidArgument,
    /// The handle was never issued or has already been released.
    StaleHandle,
}

/// Returned by `exists` when the object is present.
pub const EXISTS_FOUND: i32 = 1;
/// Returned by `exists` when the object is absent or cannot be probed.
pub const EXISTS_NOT_FOUND: i32 = 0;
/// Returned by `get` and `put` on success.
pub const STATUS_OK: i32 = 0;

/// The negative code that stands for an error across the foreign boundary.
pub open spec fn error_code(e: TransferError) -> i32 {
    match e {
        TransferError::InvalidPath => -1i32,
        TransferError::NotFound => -2i32,
        TransferError::BufferTooSmall => -3i32,
        TransferError::UploadFailed => -4i32,
        TransferError::InvalidArgument => -5i32,
        TransferError::StaleHandle => -6i32,
    }
}

impl TransferError {
    /// The negative code of this error.
    pub fn code(&self) -> (r: i32)
        ensures
            r == error_code(*self),
            r < 0,
    {
        match self {
            TransferError::InvalidPath => -1,
            TransferError::NotFound => -2,
            TransferError::BufferTooSmall => -3,
            TransferError::UploadFailed => -4,
            TransferError::InvalidArgument => -5,
            TransferError::StaleHandle => -6,
        }
    }
}

/// What a path handed over by a foreign caller stands for: the container and
/// the key, or the error it is rejected with. `text` is the path decoded as
/// UTF-8 (`None` when its bytes are not valid UTF-8), `content_len` the
/// number of bytes before its terminating NUL and `declared_len` the length
/// that the caller declared. A declared length other than the path's own is
/// a broken calling convention.
pub open spec fn path_outcome(text: Option<Seq<char>>, content_len: int, declared_len: int) -> Result<
    (Seq<char>, Seq<char>),
    TransferError,
> {
    if content_len != declared_len {
        Err(TransferError::InvalidArgument)
    } else {
        match text {
            None => Err(TransferError::InvalidPath),
            Some(t) => match resolve(t) {
                None => Err(TransferError::InvalidPath),
                Some(p) => Ok(p),
            },
        }
    }
}

/// The view of an optional string.
pub open spec fn text_view(text: Option<&str>) -> Option<Seq<char>> {
    match text {
        None => None,
        Some(t) => Some(t@),
    }
}

/// Whether `r` carries what `expected` says: the same container and key, or
/// the same error.
pub open spec fn same_outcome<A>(
    r: Result<(A, BucketAndKey), TransferError>,
    expected: Result<(Seq<char>, Seq<char>), TransferError>,
) -> bool {
    match expected {
        Ok(p) => r is Ok && r->Ok_0.1.bucket@ == p.0 && r->Ok_0.1.key@ == p.1,
        Err(e) => r == Err::<(A, BucketAndKey), TransferError>(e),
    }
}

/// Validates a path handed over by a foreign caller and resolves it.
pub fn prepare_path(text: Option<&str>, content_len: usize, declared_len: usize) -> (r: Result<
    BucketAndKey,
    TransferError,
>)
    ensures
        match path_outcome(text_view(text), content_len as int, declared_len as int) {
            Ok(p) => r is Ok && r->Ok_0.bucket@ == p.0 && r->Ok_0.key@ == p.1,
            Err(e) => r == Err::<BucketAndKey, TransferError>(e),
        },
{
    if content_len != declared_len {
        return Err(TransferError::InvalidArgument);
    }
    match text {
        None => Err(TransferError::InvalidPath),
        Some(t) => match BucketAndKey::from_str(t) {
            None => Err(TransferError::InvalidPath),
            Some(b) => Ok(b),
        },
    }
}

/// The common start of every transfer: looks up the client behind `ticket`
/// and resolves the path. A stale ticket is reported before the path is
/// looked at.
pub fn open_request<'a, T>(
    clients: &'a HandleTable<T>,
    ticket: u64,
    text: Option<&str>,
    content_len: usize,
    declared_len: usize,
) -> (r: Result<(&'a T, BucketAndKey), TransferError>)
    requires
        clients.wf(),
    ensures
        !clients@.contains_key(ticket) ==> r == Err::<(&'a T, BucketAndKey), TransferError>(
            TransferError::StaleHandle,
        ),
        clients@.contains_key(ticket) ==> same_outcome(
            r,
            path_outcome(text_view(text), content_len as int, declared_len as int),
        ),
        r matches Ok((c, _)) ==> *c == clients@[ticket],
{
    let client = match clients.get(ticket) {
        None => return Err(TransferError::StaleHandle),
        Some(c) => c,
    };
    match prepare_path(text, content_len, declared_len) {
        Ok(b) => Ok((client, b)),
        Err(e) => Err(e),
    }
}

/// The code that `exists` returns: `EXISTS_FOUND` or `EXISTS_NOT_FOUND` after
/// a probe of the object, the error's code when the call failed before it.
pub open spec fn exists_code_of(outcome: Result<bool, TransferError>) -> i32 {
    match outcome {
        Ok(true) => EXISTS_FOUND,
        Ok(false) => EXISTS_NOT_FOUND,
        Err(e) => error_code(e),
    }
}

/// Turns the outcome of an existence probe into the code returned to the
/// caller.
pub fn exists_code(outcome: Result<bool, TransferError>) -> (r: i32)
    ensures
        r == exists_code_of(outcome),
{
    match outcome {
        Ok(true) => EXISTS_FOUND,
        Ok(false) => EXISTS_NOT_FOUND,
        Err(e) => e.code(),
    }
}

/// The value that `size` returns: the declared length of the object, or a
/// negative code. A probe that reports no length, or a negative one, counts
/// as `NotFound`.
pub open spec fn size_code_of(outcome: Result<Option<i64>, TransferError>) -> i64 {
    match outcome {
        Ok(Some(n)) => if n >= 0 {
            n
        } else {
            error_code(TransferError::NotFound) as i64
        },
        Ok(None) => error_code(TransferError::NotFound) as i64,
        Err(e) => error_code(e) as i64,
    }
}

/// Turns the length reported by a metadata probe into the value returned to
/// the caller.
pub fn size_code(outcome: Result<Option<i64>, TransferError>) -> (r: i64)
    ensures
        r == size_code_of(outcome),
        r >= 0 <==> (outcome matches Ok(Some(n)) && n >= 0),
{
    match outcome {
        Ok(Some(n)) => if n >= 0 {
            n
        } else {
            TransferError::NotFound.code() as i64
        },
        Ok(None) => TransferError::NotFound.code() as i64,
        Err(e) => e.code() as i64,
    }
}

/// Turns the outcome of a `get` or a `put` into the code returned to the
/// caller.
pub fn status_code(outcome: Result<(), TransferError>) -> (r: i32)
    ensures
        outcome is Ok ==> r == STATUS_OK,
        outcome matches Err(e) ==> r == error_code(e),
{
    match outcome {
        Ok(()) => STATUS_OK,
        Err(e) => e.code(),
    }
}

/// The destination `d` after `c` is written at offset `w`, or `None` when
/// `c` does not fit before the end of `d`.
pub open spec fn write_at(d: Seq<u8>, w: int, c: Seq<u8>) -> Option<Seq<u8>> {
    if w + c.len() <= d.len() {
        Some(d.subrange(0, w) + c + d.subrange(w + c.len(), d.len() as int))
    } else {
        None
    }
}

/// Copies `chunk` into `dest` at offset `written` and returns the new offset.
/// A chunk that does not fit leaves `dest` untouched and gives
/// `BufferTooSmall`: nothing is ever written past the end of `dest`.
pub fn write_chunk(dest: &mut [u8], written: usize, chunk: &[u8]) -> (r: Result<usize, TransferError>)
    requires
        written <= old(dest)@.len(),
    ensures
        final(dest)@.len() == old(dest)@.len(),
        match write_at(old(dest)@, written as int, chunk@) {
            Some(d) => r == Ok::<usize, TransferError>((written + chunk@.len()) as usize)
                && final(dest)@ == d,
            None => r == Err::<usize, TransferError>(TransferError::BufferTooSmall)
                && final(dest)@ == old(dest)@,
        },
{
    let cap = dest.len();
    let n = chunk.len();
    if n > cap - written {
        return Err(TransferError::BufferTooSmall);
    }
    let ghost before = dest@;
    let mut i: usize = 0;
    while i < n
        invariant
            cap == dest@.len(),
            n == chunk@.len(),
            written + n <= cap,
            i <= n,
            before.len() == cap,
            forall|k: int| 0 <= k < written ==> dest@[k] == before[k],
            forall|k: int| written + n <= k < cap ==> dest@[k] == before[k],
            forall|k: int| 0 <= k < i ==> dest@[written + k] == chunk@[k],
        decreases n - i,
    {
        dest[written + i] = chunk[i];
        i = i + 1;
    }
    proof {
        let d = before.subrange(0, written as int) + chunk@ + before.subrange(
            written + n,
            cap as int,
        );
        assert forall|k: int| 0 <= k < cap implies dest@[k] == d[k] by {
            if k >= written && k < written + n {
                assert(dest@[written + (k - written)] == chunk@[k - written]);
            }
        }
        assert(dest@ =~= d);
    }
    Ok(written + n)
}

/// What the download stream of an object hands over next.
pub enum StreamEvent<'a> {
    /// The next bytes of the object.
    Chunk(&'a [u8]),
    /// The object has been read whole.
    End,
    /// The stream failed before the end.
    Failed,
}

/// One step of a download into `dest`, of which `written` bytes are filled:
/// `Ok(Some(w))` to go on with `w` bytes filled, `Ok(None)` when the object
/// is complete, or the error that ends the download. Only a chunk that fits
/// changes `dest`.
pub fn download_step(dest: &mut [u8], written: usize, event: StreamEvent) -> (r: Result<
    Option<usize>,
    TransferError,
>)
    requires
        written <= old(dest)@.len(),
    ensures
        final(dest)@.len() == old(dest)@.len(),
        match event {
            StreamEvent::Chunk(c) => match write_at(old(dest)@, written as int, c@) {
                Some(d) => r == Ok::<Option<usize>, TransferError>(
                    Some((written + c@.len()) as usize),
                ) && final(dest)@ == d,
                None => r == Err::<Option<usize>, TransferError>(TransferError::BufferTooSmall)
                    && final(dest)@ == old(dest)@,
            },
            StreamEvent::End => r == Ok::<Option<usize>, TransferError>(None) && final(dest)@
                == old(dest)@,
            StreamEvent::Failed => r == Err::<Option<usize>, TransferError>(
                TransferError::NotFound,
            ) && final(dest)@ == old(dest)@,
        },
{
    match event {
        StreamEvent::Chunk(c) => match write_chunk(dest, written, c) {
            Ok(w) => Ok(Some(w)),
            Err(e) => Err(e),
        },
        StreamEvent::End => Ok(None),
        StreamEvent::Failed => Err(TransferError::NotFound),
    }
}

/// The chunks of a stream, joined in order.
pub open spec fn concat(chunks: Seq<Seq<u8>>) -> Seq<u8>
    decreases chunks.len(),
{
    if chunks.len() == 0 {
        Seq::empty()
    } else {
        chunks[0] + concat(chunks.drop_first())
    }
}

/// The destination and the offset after each chunk is written in turn with
/// `write_chunk`, starting at offset `w`; `None` as soon as one does not fit.
pub open spec fn fill(d: Seq<u8>, w: int, chunks: Seq<Seq<u8>>) -> Option<(Seq<u8>, int)>
    decreases chunks.len(),
{
    if chunks.len() == 0 {
        Some((d, w))
    } else {
        match write_at(d, w, chunks[0]) {
            None => None,
            Some(d2) => fill(d2, w + chunks[0].len(), chunks.drop_first()),
        }
    }
}

proof fn lemma_fill_fits(d: Seq<u8>, w: int, chunks: Seq<Seq<u8>>)
    requires
        0 <= w,
        w + concat(chunks).len() <= d.len(),
    ensures
        fill(d, w, chunks) matches Some((d2, w2)) && w2 == w + concat(chunks).len()
            && d2.len() == d.len() && d2.subrange(0, w) == d.subrange(0, w)
            && d2.subrange(w, w2) == concat(chunks)
            && d2.subrange(w2, d.len() as int) == d.subrange(w2, d.len() as int),
    decreases chunks.len(),
{
    if chunks.len() == 0 {
        assert(d.subrange(w, w) =~= concat(chunks));
    } else {
        let c = chunks[0];
        let rest = chunks.drop_first();
        let d1 = d.subrange(0, w) + c + d.subrange(w + c.len(), d.len() as int);
        let w1 = w + c.len();
        lemma_fill_fits(d1, w1, rest);
        let (d2, w2) = fill(d1, w1, rest)->0;
        assert(d2.subrange(0, w) =~= d1.subrange(0, w1).subrange(0, w));
        assert(d1.subrange(0, w) =~= d.subrange(0, w));
        assert(d2.subrange(w, w2) =~= d2.subrange(0, w1).subrange(w, w1) + d2.subrange(w1, w2));
        assert(d1.subrange(0, w1).subrange(w, w1) =~= c);
        assert(d1.subrange(w2, d.len() as int) =~= d.subrange(w2, d.len() as int));
    }
}

/// Round trip: whatever chunking the store hands back the bytes of an
/// object in, writing them in turn into a destination that can hold them
/// succeeds and leaves exactly those bytes at its front.
pub proof fn lemma_round_trip(dest: Seq<u8>, chunks: Seq<Seq<u8>>)
    requires
        concat(chunks).len() <= dest.len(),
    ensures
        fill(dest, 0, chunks) matches Some((d, w)) && w == concat(chunks).len()
            && d.len() == dest.len() && d.subrange(0, w) == concat(chunks),
{
    lemma_fill_fits(dest, 0, chunks);
}

/// An object larger than the destination is never copied as a success: some
/// chunk is refused, whatever chunking the store uses.
pub proof fn lemma_too_small(dest: Seq<u8>, w: int, chunks: Seq<Seq<u8>>)
    requires
        0 <= w <= dest.len(),
        w + concat(chunks).len() > dest.len(),
    ensures
        fill(dest, w, chunks) is None,
    decreases chunks.len(),
{
    if chunks.len() > 0 {
        let c = chunks[0];
        if w + c.len() <= dest.len() {
            let d1 = dest.subrange(0, w) + c + dest.subrange(w + c.len(), dest.len() as int);
            lemma_too_small(d1, w + c.len(), chunks.drop_first());
        }
    }
}

/// The code that `exists` returns when it is made of `open_request` on a
/// table whose live values are `clients`, followed, where that succeeds, by
/// a probe that answers `found`, and `exists_code`.
pub open spec fn exists_reply<T>(
    clients: Map<u64, T>,
    ticket: u64,
    text: Option<Seq<char>>,
    content_len: int,
    declared_len: int,
    found: bool,
) -> i32 {
    if !clients.contains_key(ticket) {
        exists_code_of(Err(TransferError::StaleHandle))
    } else {
        match path_outcome(text, content_len, declared_len) {
            Err(e) => exists_code_of(Err(e)),
            Ok(_) => exists_code_of(Ok(found)),
        }
    }
}

/// `exists` is idempotent: asked twice for the same ticket and path, with
/// the client still live and the store answering as before (nothing was
/// written in between), it returns the same code, whatever other clients
/// were connected or released meanwhile.
pub proof fn lemma_exists_idempotent<T>(
    first: Map<u64, T>,
    second: Map<u64, T>,
    ticket: u64,
    text: Option<Seq<char>>,
    content_len: int,
    declared_len: int,
    found: bool,
)
    requires
        first.contains_key(ticket) == second.contains_key(ticket),
    ensures
        exists_reply(first, ticket, text, content_len, declared_len, found) == exists_reply(
            second,
            ticket,
            text,
            content_len,
            declared_len,
            found,
        ),
{
}

/// The code that `exists` returns is `EXISTS_FOUND` exactly when the ticket
/// is live, the path names a container and key, and the probe finds it.
pub proof fn lemma_exists_found<T>(
    clients: Map<u64, T>,
    ticket: u64,
    text: Option<Seq<char>>,
    content_len: int,
    declared_len: int,
    found: bool,
)
    ensures
        exists_reply(clients, ticket, text, content_len, declared_len, found) == EXISTS_FOUND
            <==> (clients.contains_key(ticket) && path_outcome(text, content_len, declared_len) is Ok
            && found),
{
}

} // verus!
