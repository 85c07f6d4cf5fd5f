//! Content hashing. Every digest here is a BLAKE3 digest of some
//! concatenation of the inputs.

use crate::ids::Digest;
use vstd::prelude::*;

verus! {

/// Size of a digest in bytes.
pub const SIZE: usize = 32;

/// The BLAKE3 digest of `data`: what `blake3::hash` returns on it.
pub uninterp spec fn blake3_digest(data: Seq<u8>) -> Seq<u8>;

/// The bytes that a hasher made by `blake3::Hasher::new` has been given so far.
pub uninterp spec fn absorbed(hasher: blake3::Hasher) -> Seq<u8>;

#[verifier::external_type_specification]
#[verifier::external_body]
pub struct ExHasher(blake3::Hasher);

/// Calls `blake3::hash`. The contract names its result.
#[verifier::external_body]
fn blake3_hash(data: &[u8]) -> (digest: Digest)
    ensures
        digest@ == blake3_digest(data@),
{
    blake3::hash(data).into()
}

/// Calls `blake3::Hasher::new`: the hasher has been given nothing yet.
#[verifier::external_body]
fn hasher_new() -> (hasher: blake3::Hasher)
    ensures
        absorbed(hasher) == Seq::<u8>::empty(),
{
    blake3::Hasher::new()
}

/// Calls `blake3::Hasher::update`: the input goes behind what was given before.
#[verifier::external_body]
fn hasher_update(hasher: &mut blake3::Hasher, input: &[u8])
    ensures
        absorbed(*final(hasher)) == absorbed(*old(hasher)) + input@,
{
    hasher.update(input);
}

/// Calls `blake3::Hasher::finalize`: the digest is that of everything given, as
/// `blake3::hash` computes it at once.
#[verifier::external_body]
fn hasher_finalize(hasher: &blake3::Hasher) -> (digest: Digest)
    ensures
        digest@ == blake3_digest(absorbed(*hasher)),
{
    hasher.finalize().into()
}

/// The digest of `data`.
pub fn new(data: &[u8]) -> (digest: Digest)
    ensures
        digest@ == blake3_digest(data@),
{
    blake3_hash(data)
}

/// The digest of two digests, one behind the other.
#[must_use]
pub fn combine(left: Digest, right: Digest) -> (digest: Digest)
    ensures
        digest@ == blake3_digest(left@ + right@),
{
    let mut hasher = hasher_new();
    hasher_update(&mut hasher, &left);
    hasher_update(&mut hasher, &right);
    assert(absorbed(hasher) =~= left@ + right@);
    hasher_finalize(&hasher)
}

/// A 64 bit number as eight bytes, most significant first.
pub open spec fn nonce_bytes(nonce: u64) -> Seq<u8> {
    seq![
        (nonce / 0x100_0000_0000_0000) as u8,
        (nonce / 0x1_0000_0000_0000 % 256) as u8,
        (nonce / 0x100_0000_0000 % 256) as u8,
        (nonce / 0x1_0000_0000 % 256) as u8,
        (nonce / 0x100_0000 % 256) as u8,
        (nonce / 0x1_0000 % 256) as u8,
        (nonce / 0x100 % 256) as u8,
        (nonce % 256) as u8,
    ]
}

/// The digest of `data` followed by the eight bytes of a nonce, most
/// significant first.
#[must_use]
pub fn with_nonce(data: &[u8], nonce: u64) -> (digest: Digest)
    ensures
        digest@ == blake3_digest(data@ + nonce_bytes(nonce)),
{
    let bytes: [u8; 8] = [
        (nonce / 0x100_0000_0000_0000) as u8,
        (nonce / 0x1_0000_0000_0000 % 256) as u8,
        (nonce / 0x100_0000_0000 % 256) as u8,
        (nonce / 0x1_0000_0000 % 256) as u8,
        (nonce / 0x100_0000 % 256) as u8,
        (nonce / 0x1_0000 % 256) as u8,
        (nonce / 0x100 % 256) as u8,
        (nonce % 256) as u8,
    ];
    assert(bytes@ =~= nonce_bytes(nonce));
    let mut hasher = hasher_new();
    hasher_update(&mut hasher, data);
    hasher_update(&mut hasher, &bytes);
    assert(absorbed(hasher) =~= data@ + nonce_bytes(nonce));
    hasher_finalize(&hasher)
}

/// The digest of a key followed by its value.
pub fn kv(key: &[u8], value: &[u8]) -> (digest: Digest)
    ensures
        digest@ == blake3_digest(key@ + value@),
{
    let mut hasher = hasher_new();
    hasher_update(&mut hasher, key);
    hasher_update(&mut hasher, value);
    assert(absorbed(hasher) =~= key@ + value@);
    hasher_finalize(&hasher)
}

/// Bytes laid end to end.
pub open spec fn joined(chunks: Seq<Vec<u8>>) -> Seq<u8>
    decreases chunks.len(),
{
    if chunks.len() == 0 {
        Seq::empty()
    } else {
        joined(chunks.drop_last()) + chunks.last()@
    }
}

/// How much is asked for when `at` of `len` bytes have been read.
pub open spec fn chunk_len(at: int, len: int, buffer_size: int) -> int {
    if len - at < buffer_size {
        len - at
    } else {
        buffer_size
    }
}

/// The chunks are what `reader` answered when it was asked, in turn, for
/// `buffer_size` bytes or for what was left of `len`.
pub open spec fn read_in_turn<E, R: Fn(usize, usize) -> Result<Vec<u8>, E>>(
    reader: R,
    chunks: Seq<Vec<u8>>,
    len: int,
    buffer_size: int,
) -> bool
    decreases chunks.len(),
{
    chunks.len() == 0 || {
        let before = chunks.drop_last();
        let at = joined(before).len() as int;
        &&& read_in_turn::<E, R>(reader, before, len, buffer_size)
        &&& at < len
        &&& call_ensures(
            reader,
            (at as usize, chunk_len(at, len, buffer_size) as usize),
            Ok(chunks.last()),
        )
    }
}

/// Where some chunks have been read in turn, `reader` may be asked for the next.
pub open spec fn next_allowed<E, R: Fn(usize, usize) -> Result<Vec<u8>, E>>(
    reader: R,
    len: int,
    buffer_size: int,
) -> bool {
    forall|chunks: Seq<Vec<u8>>|
        {
            let at = joined(chunks).len() as int;
            #[trigger] read_in_turn::<E, R>(reader, chunks, len, buffer_size) && at < len
                ==> call_requires(reader, (at as usize, chunk_len(at, len, buffer_size) as usize))
        }
}

/// The digest of `len` bytes that are read `BUFFER_SIZE` at a time. The reader
/// is asked for a number of bytes from a position on, and the first error it
/// gives ends the reading.
pub fn read<const BUFFER_SIZE: usize, E, R: Fn(usize, usize) -> Result<Vec<u8>, E>>(
    reader: R,
    len: usize,
) -> (digest: Result<Digest, E>)
    requires
        BUFFER_SIZE > 0 || len == 0,
        next_allowed::<E, R>(reader, len as int, BUFFER_SIZE as int),
        forall|at: usize, n: usize, chunk: Vec<u8>|
            call_ensures(reader, (at, n), Ok(chunk)) ==> chunk@.len() == n,
    ensures
        match digest {
            Ok(digest) => exists|chunks: Seq<Vec<u8>>|
                {
                    &&& #[trigger] read_in_turn::<E, R>(reader, chunks, len as int, BUFFER_SIZE as int)
                    &&& joined(chunks).len() == len
                    &&& digest@ == blake3_digest(joined(chunks))
                },
            Err(error) => exists|chunks: Seq<Vec<u8>>|
                {
                    let at = joined(chunks).len() as int;
                    &&& #[trigger] read_in_turn::<E, R>(reader, chunks, len as int, BUFFER_SIZE as int)
                    &&& at < len
                    &&& call_ensures(
                        reader,
                        (at as usize, chunk_len(at, len as int, BUFFER_SIZE as int) as usize),
                        Err(error),
                    )
                },
        },
{
    let mut hasher = hasher_new();
    let mut left: usize = len;
    let ghost mut chunks: Seq<Vec<u8>> = Seq::empty();
    while left > 0
        invariant
            BUFFER_SIZE > 0 || len == 0,
            left <= len,
            next_allowed::<E, R>(reader, len as int, BUFFER_SIZE as int),
            forall|at: usize, n: usize, chunk: Vec<u8>|
                call_ensures(reader, (at, n), Ok(chunk)) ==> chunk@.len() == n,
            read_in_turn::<E, R>(reader, chunks, len as int, BUFFER_SIZE as int),
            joined(chunks).len() == len - left,
            absorbed(hasher) == joined(chunks),
        decreases left,
    {
        let red: usize = if left < BUFFER_SIZE {
            left
        } else {
            BUFFER_SIZE
        };
        match reader(len - left, red) {
            Ok(chunk) => {
                hasher_update(&mut hasher, &chunk);
                proof {
                    assert(chunks.push(chunk).drop_last() =~= chunks);
                    chunks = chunks.push(chunk);
                }
                left = left - red;
            },
            Err(error) => {
                return Err(error);
            },
        }
    }
    Ok(hasher_finalize(&hasher))
}

/// A buffer that keeps only the digest of what is written to it.
pub struct HashBuffer(blake3::Hasher);

impl HashBuffer {
    /// The bytes written so far.
    pub closed spec fn written(&self) -> Seq<u8> {
        absorbed(self.0)
    }

    /// Writes a run of bytes. A digest never runs out of room.
    pub fn extend_from_slice(&mut self, slice: &[u8]) -> (done: Option<()>)
        ensures
            done == Some(()),
            final(self).written() == old(self).written() + slice@,
    {
        hasher_update(&mut self.0, slice);
        Some(())
    }

    /// Writes one byte.
    pub fn push(&mut self, byte: u8) -> (done: Option<()>)
        ensures
            done == Some(()),
            final(self).written() == old(self).written().push(byte),
    {
        let bytes: [u8; 1] = [byte];
        hasher_update(&mut self.0, &bytes);
        assert(old(self).written() + bytes@ =~= old(self).written().push(byte));
        Some(())
    }

    /// The digest of everything written.
    pub fn into_hash(self) -> (digest: Digest)
        ensures
            digest@ == blake3_digest(self.written()),
    {
        hasher_finalize(&self.0)
    }
}

impl Default for HashBuffer {
    /// An empty buffer.
    fn default() -> (buffer: HashBuffer)
        ensures
            buffer.written() == Seq::<u8>::empty(),
    {
        HashBuffer(hasher_new())
    }
}

/// Where a run of bytes is cut does not show in a digest: writing `a` and then
/// `b` gives the digest of writing both at once.
pub proof fn lemma_cuts_do_not_show(before: Seq<u8>, a: Seq<u8>, b: Seq<u8>)
    ensures
        blake3_digest((before + a) + b) == blake3_digest(before + (a + b)),
{
    assert((before + a) + b =~= before + (a + b));
}

/// The bytes of a nonce make up the nonce, the most significant first.
pub proof fn lemma_nonce_bytes(nonce: u64)
    ensures
        nonce_bytes(nonce).len() == 8,
        nonce == 0x100_0000_0000_0000 * nonce_bytes(nonce)[0] + 0x1_0000_0000_0000 * nonce_bytes(
            nonce,
        )[1] + 0x100_0000_0000 * nonce_bytes(nonce)[2] + 0x1_0000_0000 * nonce_bytes(nonce)[3]
            + 0x100_0000 * nonce_bytes(nonce)[4] + 0x1_0000 * nonce_bytes(nonce)[5] + 0x100
            * nonce_bytes(nonce)[6] + nonce_bytes(nonce)[7],
{
    let n = nonce as int;
    let a = n / 0x100;
    let b = n / 0x1_0000;
    let c = n / 0x100_0000;
    let d = n / 0x1_0000_0000;
    let e = n / 0x100_0000_0000;
    let f = n / 0x1_0000_0000_0000;
    let g = n / 0x100_0000_0000_0000;
    assert(n % 256 == n - 256 * a);
    assert(b == a / 256 && c == b / 256 && d == c / 256 && e == d / 256 && f == e / 256 && g == f
        / 256);
    assert(g < 256);
}

/// `digest` is the digest of these bytes, one behind the other.
pub open spec fn digests(digest: Digest, first: Seq<u8>, then: Seq<u8>) -> bool {
    exists|data: Seq<u8>|
        {
            &&& digest@ == #[trigger] blake3_digest(data)
            &&& data.len() == first.len() + then.len()
            &&& forall|i: int| 0 <= i < first.len() ==> #[trigger] data[i] == first[i]
            &&& forall|i: int| 0 <= i < then.len() ==> data[first.len() + i] == #[trigger] then[i]
        }
}

proof fn lemma_digests(digest: Digest, first: Seq<u8>, then: Seq<u8>)
    requires
        digest@ == blake3_digest(first + then),
    ensures
        digests(digest, first, then),
{
    let data = first + then;
    assert(digest@ == blake3_digest(data));
}

/// Every digest is that of its inputs, one behind the other and each of them whole: of
/// the data, of two digests, of a key and its value, and of data and a nonce.
pub proof fn lemma_digests_of_the_inputs(
    data: &[u8],
    more: &[u8],
    left: Digest,
    right: Digest,
    nonce: u64,
)
    ensures
        forall|digest: Digest| #[trigger]
            call_ensures(new, (data,), digest) ==> digest@ == blake3_digest(data@),
        forall|digest: Digest| #[trigger]
            call_ensures(combine, (left, right), digest) ==> digests(digest, left@, right@),
        forall|digest: Digest| #[trigger]
            call_ensures(kv, (data, more), digest) ==> digests(
                digest,
                data@,
                more@,
            ),
        forall|digest: Digest| #[trigger]
            call_ensures(with_nonce, (data, nonce), digest) ==> exists|bytes: Seq<u8>|
                {
                    &&& #[trigger] digests(digest, data@, bytes)
                    &&& bytes.len() == 8
                    &&& nonce == 0x100_0000_0000_0000 * bytes[0] + 0x1_0000_0000_0000 * bytes[1]
                        + 0x100_0000_0000 * bytes[2] + 0x1_0000_0000 * bytes[3] + 0x100_0000
                        * bytes[4] + 0x1_0000 * bytes[5] + 0x100 * bytes[6] + bytes[7]
                },
{
    assert forall|digest: Digest| #[trigger]
        call_ensures(combine, (left, right), digest) implies digests(digest, left@, right@) by {
        lemma_digests(digest, left@, right@);
    }
    assert forall|digest: Digest| #[trigger]
        call_ensures(kv, (data, more), digest) implies digests(
        digest,
        data@,
        more@,
    ) by {
        lemma_digests(digest, data@, more@);
    }
    lemma_nonce_bytes(nonce);
    assert forall|digest: Digest| #[trigger]
        call_ensures(with_nonce, (data, nonce), digest) implies exists|bytes: Seq<u8>|
        {
            &&& #[trigger] digests(digest, data@, bytes)
            &&& bytes.len() == 8
            &&& nonce == 0x100_0000_0000_0000 * bytes[0] + 0x1_0000_0000_0000 * bytes[1]
                + 0x100_0000_0000 * bytes[2] + 0x1_0000_0000 * bytes[3] + 0x100_0000 * bytes[4]
                + 0x1_0000 * bytes[5] + 0x100 * bytes[6] + bytes[7]
        } by {
        lemma_digests(digest, data@, nonce_bytes(nonce));
    }
}

/// Where a reader answers `n` bytes from `at` on with those of `file`, and never
/// fails, what is read is the file, whatever the size of the buffer.
pub proof fn lemma_file_is_read_whole<
    const BUFFER_SIZE: usize,
    E,
    R: Fn(usize, usize) -> Result<Vec<u8>, E>,
>(reader: R, file: Seq<u8>, len: usize)
    requires
        file.len() == len,
        forall|at: usize, n: usize, chunk: Vec<u8>|
            at + n <= len && #[trigger] call_ensures(reader, (at, n), Ok(chunk)) ==> chunk@
                == file.subrange(at as int, at + n),
        forall|at: usize, n: usize, error: E| !#[trigger] call_ensures(reader, (at, n), Err(error)),
    ensures
        forall|digest: Result<Digest, E>| #[trigger]
            call_ensures(read::<BUFFER_SIZE, E, R>, (reader, len), digest) ==> (digest matches Ok(
                digest,
            ) && digest@ == blake3_digest(file)),
{
    let size = BUFFER_SIZE as int;
    assert forall|digest: Result<Digest, E>| #[trigger]
        call_ensures(read::<BUFFER_SIZE, E, R>, (reader, len), digest) implies (digest matches Ok(
        digest,
    ) && digest@ == blake3_digest(file)) by {
        match digest {
            Ok(digest) => {
                let chunks = choose|chunks: Seq<Vec<u8>>|
                    {
                        &&& #[trigger] read_in_turn::<E, R>(reader, chunks, len as int, size)
                        &&& joined(chunks).len() == len
                        &&& digest@ == blake3_digest(joined(chunks))
                    };
                lemma_read_in_turn::<E, R>(reader, chunks, file, len, size);
                assert(joined(chunks) =~= file);
            },
            Err(_) => {},
        }
    }
}

proof fn lemma_read_in_turn<E, R: Fn(usize, usize) -> Result<Vec<u8>, E>>(
    reader: R,
    chunks: Seq<Vec<u8>>,
    file: Seq<u8>,
    len: usize,
    size: int,
)
    requires
        file.len() == len,
        0 <= size <= usize::MAX,
        forall|at: usize, n: usize, chunk: Vec<u8>|
            at + n <= len && #[trigger] call_ensures(reader, (at, n), Ok(chunk)) ==> chunk@
                == file.subrange(at as int, at + n),
        read_in_turn::<E, R>(reader, chunks, len as int, size),
    ensures
        joined(chunks).len() <= len,
        joined(chunks) == file.take(joined(chunks).len() as int),
    decreases chunks.len(),
{
    if chunks.len() == 0 {
        assert(joined(chunks) =~= file.take(0));
    } else {
        let before = chunks.drop_last();
        lemma_read_in_turn::<E, R>(reader, before, file, len, size);
        let at = joined(before).len() as int;
        let n = chunk_len(at, len as int, size);
        assert(at + n <= len);
        assert(chunks.last()@ == file.subrange(at, at + n));
        assert(joined(chunks) =~= file.take(at + n));
    }
}

/// Chunk `k` of a reading is what `reader` answered when it was asked for a buffer full
/// of bytes from behind `k` full buffers on, or for what was left.
pub open spec fn answered<E, R: Fn(usize, usize) -> Result<Vec<u8>, E>>(
    reader: R,
    k: int,
    len: int,
    buffer_size: int,
    answer: Result<Vec<u8>, E>,
) -> bool {
    let at = k * buffer_size;
    &&& at < len
    &&& call_ensures(
        reader,
        (
            at as usize,
            if at + buffer_size <= len {
                buffer_size as usize
            } else {
                (len - at) as usize
            },
        ),
        answer,
    )
}

proof fn lemma_answered<E, R: Fn(usize, usize) -> Result<Vec<u8>, E>>(
    reader: R,
    chunks: Seq<Vec<u8>>,
    len: usize,
    size: int,
)
    requires
        0 <= size <= usize::MAX,
        forall|at: usize, n: usize, chunk: Vec<u8>|
            call_ensures(reader, (at, n), Ok(chunk)) ==> chunk@.len() == n,
        read_in_turn::<E, R>(reader, chunks, len as int, size),
    ensures
        joined(chunks).len() == if chunks.len() * size <= len {
            chunks.len() * size
        } else {
            len as int
        },
        forall|k: int|
            0 <= k < chunks.len() ==> answered::<E, R>(
                reader,
                k,
                len as int,
                size,
                Ok(#[trigger] chunks[k]),
            ),
    decreases chunks.len(),
{
    if chunks.len() > 0 {
        let before = chunks.drop_last();
        let last = before.len() as int;
        lemma_answered::<E, R>(reader, before, len, size);
        let at = joined(before).len() as int;
        assert(chunks.len() * size == last * size + size) by (nonlinear_arith)
            requires
                chunks.len() == last + 1,
        ;
        assert(at == last * size);
        assert forall|k: int| 0 <= k < chunks.len() implies answered::<E, R>(
            reader,
            k,
            len as int,
            size,
            Ok(#[trigger] chunks[k]),
        ) by {
            if k < last {
                assert(answered::<E, R>(reader, k, len as int, size, Ok(before[k])));
            }
        }
    }
}

/// `chunks` were read one after the other. `digest` is that of all of them laid end to
/// end where they reach the end, and otherwise the error that the next was answered
/// with.
pub open spec fn read_by_buffers<E, R: Fn(usize, usize) -> Result<Vec<u8>, E>>(
    reader: R,
    len: int,
    buffer_size: int,
    digest: Result<Digest, E>,
    chunks: Seq<Vec<u8>>,
) -> bool {
    &&& forall|k: int|
        0 <= k < chunks.len() ==> answered::<E, R>(
            reader,
            k,
            len,
            buffer_size,
            Ok(#[trigger] chunks[k]),
        )
    &&& match digest {
        Ok(digest) => digest@ == blake3_digest(joined(chunks)) && joined(chunks).len() == len,
        Err(error) => answered::<E, R>(
            reader,
            chunks.len() as int,
            len,
            buffer_size,
            Err(error),
        ),
    }
}

/// A reading goes from the start to the end, a buffer full at a time, and the first
/// error ends it.
pub proof fn lemma_read_buffer_by_buffer<
    const BUFFER_SIZE: usize,
    E,
    R: Fn(usize, usize) -> Result<Vec<u8>, E>,
>(reader: R, len: usize)
    requires
        forall|at: usize, n: usize, chunk: Vec<u8>|
            call_ensures(reader, (at, n), Ok(chunk)) ==> chunk@.len() == n,
    ensures
        forall|digest: Result<Digest, E>| #[trigger]
            call_ensures(read::<BUFFER_SIZE, E, R>, (reader, len), digest) ==> exists|
                chunks: Seq<Vec<u8>>,
            | #[trigger]
                read_by_buffers::<E, R>(reader, len as int, BUFFER_SIZE as int, digest, chunks),
{
    let size = BUFFER_SIZE as int;
    assert forall|digest: Result<Digest, E>| #[trigger]
        call_ensures(read::<BUFFER_SIZE, E, R>, (reader, len), digest) implies exists|
        chunks: Seq<Vec<u8>>,
    | #[trigger]
        read_by_buffers::<E, R>(reader, len as int, BUFFER_SIZE as int, digest, chunks) by {
        match digest {
            Ok(found) => {
                let chunks = choose|chunks: Seq<Vec<u8>>|
                    {
                        &&& #[trigger] read_in_turn::<E, R>(reader, chunks, len as int, size)
                        &&& joined(chunks).len() == len
                        &&& found@ == blake3_digest(joined(chunks))
                    };
                lemma_answered::<E, R>(reader, chunks, len, size);
                assert(read_by_buffers::<E, R>(reader, len as int, size, digest, chunks));
            },
            Err(error) => {
                let chunks = choose|chunks: Seq<Vec<u8>>|
                    {
                        let at = joined(chunks).len() as int;
                        &&& #[trigger] read_in_turn::<E, R>(reader, chunks, len as int, size)
                        &&& at < len
                        &&& call_ensures(
                            reader,
                            (at as usize, chunk_len(at, len as int, size) as usize),
                            Err(error),
                        )
                    };
                lemma_answered::<E, R>(reader, chunks, len, size);
                assert(joined(chunks).len() == chunks.len() * size);
                assert(read_by_buffers::<E, R>(reader, len as int, size, digest, chunks));
            },
        }
    }
}

/// The digest of several chunks is that of their bytes laid end to end.
pub proof fn lemma_joined_end_to_end(some: Seq<Vec<u8>>, chunk: Vec<u8>, more: Seq<Vec<u8>>)
    ensures
        joined(some + more) == joined(some) + joined(more),
        joined(seq![chunk]) == chunk@,
        joined(Seq::empty()).len() == 0,
    decreases more.len(),
{
    assert(seq![chunk].drop_last() =~= Seq::empty());
    assert(joined(seq![chunk].drop_last()).len() == 0);
    assert(joined(seq![chunk]) =~= chunk@);
    if more.len() == 0 {
        assert(some + more =~= some);
        assert(joined(some) + joined(more) =~= joined(some));
    } else {
        lemma_joined_end_to_end(some, chunk, more.drop_last());
        assert((some + more).drop_last() =~= some + more.drop_last());
        assert(joined(some + more) =~= joined(some) + joined(more));
    }
}

/// A buffer digests exactly what is written to it, in order, from the start.
pub proof fn lemma_buffer_digests_what_is_written(slice: &[u8], byte: u8)
    ensures
        forall|buffer: HashBuffer| #[trigger]
            call_ensures(HashBuffer::default, (), buffer) ==> buffer.written().len() == 0,
        forall|buffer: &mut HashBuffer, done: Option<()>| #[trigger]
            call_ensures(HashBuffer::extend_from_slice, (buffer, slice), done) ==> {
                &&& done is Some
                &&& final(buffer).written().len() == buffer.written().len() + slice@.len()
                &&& forall|i: int|
                    0 <= i < buffer.written().len() ==> #[trigger] final(buffer).written()[i]
                        == buffer.written()[i]
                &&& forall|i: int|
                    0 <= i < slice@.len() ==> final(buffer).written()[buffer.written().len() + i]
                        == #[trigger] slice@[i]
            },
        forall|buffer: &mut HashBuffer, done: Option<()>| #[trigger]
            call_ensures(HashBuffer::push, (buffer, byte), done) ==> {
                let n = buffer.written().len() as int;
                &&& done is Some
                &&& final(buffer).written().len() == n + 1
                &&& final(buffer).written()[n] == byte
                &&& forall|i: int|
                    0 <= i < n ==> #[trigger] final(buffer).written()[i] == buffer.written()[i]
            },
        forall|buffer: HashBuffer, digest: Digest| #[trigger]
            call_ensures(HashBuffer::into_hash, (buffer,), digest) ==> digest@ == blake3_digest(
                buffer.written(),
            ),
{
}

} // verus!
