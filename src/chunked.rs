use crate::error::LogError;
use vstd::arithmetic::div_mod::{lemma_fundamental_div_mod, lemma_mod_pos_bound};
use vstd::prelude::*;

verus! {

/// Width of the identifier that opens every chunk header.
pub const ID_WIDTH: usize = 8;

/// Width of a chunk header: identifier, sequence index (one byte) and
/// chunk count (one byte).
pub const HEADER_WIDTH: usize = 10;

/// The largest number of chunks a receiver reassembles into one message.
pub const MAX_CHUNKS: usize = 128;

/// The largest length of one chunk in bytes, header included.
#[derive(Clone, Copy, Debug, PartialEq, Eq, Structural)]
pub struct ChunkSize(pub u16);

/// Payload bytes that fit in one chunk of `size` bytes.
pub open spec fn capacity(size: ChunkSize) -> int {
    size.0 - HEADER_WIDTH
}

/// Number of chunks for `len` payload bytes at `cap` bytes each: the
/// ceiling of `len / cap`, and one chunk for an empty payload.
pub open spec fn chunk_count(len: nat, cap: nat) -> nat
    recommends
        cap > 0,
{
    if len == 0 {
        1
    } else if len % cap == 0 {
        len / cap
    } else {
        len / cap + 1
    }
}

/// The `i`-th slice of `p`: bytes `i * cap` up to `(i + 1) * cap`, cut at
/// the end of `p`.
pub open spec fn slice_of(p: Seq<u8>, cap: nat, i: int) -> Seq<u8> {
    let end = if (i + 1) * cap < p.len() {
        (i + 1) * cap
    } else {
        p.len() as int
    };
    p.subrange(i * cap, end)
}

/// All slices of `p`, in order.
pub open spec fn slices(p: Seq<u8>, cap: nat) -> Seq<Seq<u8>> {
    Seq::new(chunk_count(p.len(), cap), |i: int| slice_of(p, cap, i))
}

/// Header of chunk `i` out of `n` of the message `id`.
pub open spec fn header_of(id: Seq<u8>, i: int, n: int) -> Seq<u8> {
    id + seq![i as u8, n as u8]
}

/// Chunk `i` out of `n`: its header, then its slice of the payload.
pub open spec fn chunk_at(p: Seq<u8>, cap: nat, id: Seq<u8>, i: int, n: int) -> Seq<u8> {
    header_of(id, i, n) + slice_of(p, cap, i)
}

/// The chunks that carry payload `p` under identifier `id`, in sequence order.
pub open spec fn framed(p: Seq<u8>, cap: nat, id: Seq<u8>) -> Seq<Seq<u8>> {
    let n = chunk_count(p.len(), cap);
    Seq::new(n, |i: int| chunk_at(p, cap, id, i, n as int))
}

/// The payload section of each chunk: what follows its header.
pub open spec fn payload_sections(chunks: Seq<Seq<u8>>) -> Seq<Seq<u8>> {
    chunks.map_values(|c: Seq<u8>| c.subrange(HEADER_WIDTH as int, c.len() as int))
}

/// Why a payload of `len` bytes cannot be framed in chunks of `size`, if it cannot.
pub open spec fn framing_error(len: nat, size: ChunkSize) -> Option<LogError> {
    if size.0 <= HEADER_WIDTH {
        Some(LogError::ChunkSizeTooSmall)
    } else if chunk_count(len, capacity(size) as nat) > MAX_CHUNKS {
        Some(LogError::TooManyChunks)
    } else {
        None
    }
}

/// Sum of the lengths of `chunks`.
pub open spec fn total_length(chunks: Seq<Seq<u8>>) -> int
    decreases chunks.len(),
{
    if chunks.len() == 0 {
        0
    } else {
        total_length(chunks.drop_last()) + chunks.last().len()
    }
}

/// The chunk count is the ceiling of `len / cap`: `n - 1` full slices do
/// not hold the payload and `n` do.
proof fn lemma_count_bounds(len: nat, cap: nat)
    requires
        cap > 0,
    ensures
        chunk_count(len, cap) >= 1,
        len > 0 ==> (chunk_count(len, cap) - 1) * cap < len,
        len <= chunk_count(len, cap) * cap,
{
    if len > 0 {
        let q = len as int / cap as int;
        let r = len as int % cap as int;
        lemma_fundamental_div_mod(len as int, cap as int);
        lemma_mod_pos_bound(len as int, cap as int);
        assert(len == q * cap + r);
        if r == 0 {
            assert(q >= 1) by (nonlinear_arith)
                requires
                    len == q * cap + r,
                    r == 0,
                    len > 0,
                    cap > 0,
            ;
            assert((q - 1) * cap == q * cap - cap) by (nonlinear_arith);
        } else {
            assert((q + 1) * cap == q * cap + cap) by (nonlinear_arith);
            assert(q >= 0) by (nonlinear_arith)
                requires
                    len == q * cap + r,
                    r < cap,
                    cap > 0,
                    len > 0,
            ;
        }
    }
}

/// Each slice starts inside the payload, or at its start when it is empty.
proof fn lemma_slice_start(len: nat, cap: nat, i: int)
    requires
        cap > 0,
        0 <= i < chunk_count(len, cap),
    ensures
        0 <= i * cap <= len,
        len > 0 ==> i * cap < len,
{
    lemma_count_bounds(len, cap);
    let n = chunk_count(len, cap) as int;
    assert(0 <= i * cap) by (nonlinear_arith)
        requires
            i >= 0,
            cap > 0,
    ;
    assert(i * cap <= (n - 1) * cap) by (nonlinear_arith)
        requires
            i <= n - 1,
            cap > 0,
    ;
    if len == 0 {
        assert(i == 0);
    }
}

/// Chunk `i` out of `n` of `payload`, with its header.
fn frame_chunk(payload: &Vec<u8>, cap: usize, id: &[u8; 8], i: usize, n: usize) -> (c: Vec<u8>)
    requires
        0 < cap <= u16::MAX,
        i < n <= MAX_CHUNKS,
        n == chunk_count(payload@.len(), cap as nat),
    ensures
        c@ == chunk_at(payload@, cap as nat, id@, i as int, n as int),
        c@.len() <= cap + HEADER_WIDTH,
{
    let mut c: Vec<u8> = Vec::new();
    let mut k: usize = 0;
    while k < ID_WIDTH
        invariant
            k <= ID_WIDTH,
            id@.len() == ID_WIDTH,
            c@ == id@.take(k as int),
        decreases ID_WIDTH - k,
    {
        c.push(id[k]);
        proof {
            assert(id@.take(k + 1) =~= id@.take(k as int).push(id@[k as int]));
        }
        k = k + 1;
    }
    c.push(i as u8);
    c.push(n as u8);
    proof {
        assert(c@ =~= header_of(id@, i as int, n as int));
        lemma_slice_start(payload@.len(), cap as nat, i as int);
        assert(i * cap <= 127 * 65535) by (nonlinear_arith)
            requires
                i < 128,
                cap <= 65535,
        ;
    }
    let len = payload.len();
    let start: usize = i * cap;
    let end: usize = if len - start > cap {
        start + cap
    } else {
        len
    };
    assert(end as int == if (i + 1) * cap < len {
        (i + 1) * cap
    } else {
        len as int
    }) by (nonlinear_arith)
        requires
            start == i * cap,
            start <= len,
            end == if len - start > cap {
                start + cap
            } else {
                len as int
            },
    ;
    let ghost head = c@;
    let mut k: usize = start;
    while k < end
        invariant
            start <= k <= end <= len,
            len == payload@.len(),
            c@ == head + payload@.subrange(start as int, k as int),
        decreases end - k,
    {
        c.push(payload[k]);
        proof {
            assert(payload@.subrange(start as int, k + 1) =~= payload@.subrange(
                start as int,
                k as int,
            ).push(payload@[k as int]));
        }
        k = k + 1;
    }
    c
}

/// Relies on rand::random: eight bytes drawn from the thread-local generator.
/// Nothing is assumed of their value.
#[verifier::external_body]
fn random_message_id() -> (r: [u8; 8]) {
    rand::random()
}

/// One message split into chunks that each carry a header (identifier,
/// sequence index, chunk count) and a slice of the payload.
pub struct ChunkedMessage {
    message_id: [u8; 8],
    chunk_size: ChunkSize,
    chunks: Vec<Vec<u8>>,
    total_len: usize,
    payload: Ghost<Seq<u8>>,
}

impl ChunkedMessage {
    /// The identifier carried in every header.
    pub closed spec fn id(&self) -> Seq<u8> {
        self.message_id@
    }

    /// The chunk size the message was framed for.
    pub closed spec fn size(&self) -> ChunkSize {
        self.chunk_size
    }

    /// The payload that was framed.
    pub closed spec fn payload(&self) -> Seq<u8> {
        self.payload@
    }

    /// The chunks as byte sequences, in sequence order.
    pub closed spec fn chunk_views(&self) -> Seq<Seq<u8>> {
        self.chunks@.map_values(|c: Vec<u8>| c@)
    }

    /// The recorded serialized length.
    pub closed spec fn byte_len(&self) -> int {
        self.total_len as int
    }

    /// The chunks are exactly the framing of the payload under the
    /// identifier, within the receiver's chunk limit, and the recorded
    /// length is their total length.
    pub open spec fn wf(&self) -> bool {
        &&& framing_error(self.payload().len(), self.size()) is None
        &&& self.id().len() == ID_WIDTH
        &&& self.chunk_views() == framed(self.payload(), capacity(self.size()) as nat, self.id())
        &&& self.byte_len() == total_length(self.chunk_views())
    }

    /// Frames `payload` into chunks of at most `chunk_size` bytes under the
    /// identifier `message_id`.
    pub fn with_id(chunk_size: ChunkSize, payload: Vec<u8>, message_id: [u8; 8]) -> (r: Result<
        ChunkedMessage,
        LogError,
    >)
        ensures
            match r {
                Ok(m) => {
                    &&& framing_error(payload@.len(), chunk_size) is None
                    &&& m.wf()
                    &&& m.payload() == payload@
                    &&& m.id() == message_id@
                    &&& m.size() == chunk_size
                },
                Err(e) => framing_error(payload@.len(), chunk_size) == Some(e),
            },
    {
        if chunk_size.0 as usize <= HEADER_WIDTH {
            return Err(LogError::ChunkSizeTooSmall);
        }
        let cap: usize = chunk_size.0 as usize - HEADER_WIDTH;
        let len = payload.len();
        proof {
            lemma_fundamental_div_mod(len as int, cap as int);
            lemma_mod_pos_bound(len as int, cap as int);
            let q = len as int / cap as int;
            assert(len as int % cap as int > 0 ==> q < len) by (nonlinear_arith)
                requires
                    len == cap * q + len as int % cap as int,
                    cap >= 1,
                    q >= 0,
            ;
        }
        let n: usize = if len == 0 {
            1
        } else if len % cap == 0 {
            len / cap
        } else {
            len / cap + 1
        };
        if n > MAX_CHUNKS {
            return Err(LogError::TooManyChunks);
        }
        let ghost p = payload@;
        let ghost size = chunk_size.0 as int;
        let mut chunks: Vec<Vec<u8>> = Vec::new();
        let mut total: usize = 0;
        let mut i: usize = 0;
        while i < n
            invariant
                i <= n <= MAX_CHUNKS,
                cap == size - HEADER_WIDTH,
                0 < cap <= u16::MAX,
                size <= u16::MAX,
                p == payload@,
                n == chunk_count(p.len(), cap as nat),
                chunks@.len() == i,
                forall|j: int|
                    0 <= j < i ==> #[trigger] chunks@[j]@ == chunk_at(
                        p,
                        cap as nat,
                        message_id@,
                        j,
                        n as int,
                    ),
                total == total_length(chunks@.map_values(|c: Vec<u8>| c@)),
                total <= i * size,
            decreases n - i,
        {
            let chunk = frame_chunk(&payload, cap, &message_id, i, n);
            proof {
                assert((i + 1) * size == i * size + size) by (nonlinear_arith);
                assert((i + 1) * size <= 128 * 65535) by (nonlinear_arith)
                    requires
                        i < 128,
                        size <= 65535,
                ;
            }
            let ghost before = chunks@;
            total = total + chunk.len();
            chunks.push(chunk);
            proof {
                assert(chunks@.map_values(|c: Vec<u8>| c@).drop_last() =~= before.map_values(
                    |c: Vec<u8>| c@,
                ));
            }
            i = i + 1;
        }
        let m = ChunkedMessage {
            message_id,
            chunk_size,
            chunks,
            total_len: total,
            payload: Ghost(p),
        };
        assert(m.chunk_views() =~= framed(p, cap as nat, message_id@));
        Ok(m)
    }

    /// Frames `payload` into chunks of at most `chunk_size` bytes under a
    /// fresh random identifier.
    pub fn new(chunk_size: ChunkSize, payload: Vec<u8>) -> (r: Result<ChunkedMessage, LogError>)
        ensures
            match r {
                Ok(m) => {
                    &&& framing_error(payload@.len(), chunk_size) is None
                    &&& m.wf()
                    &&& m.payload() == payload@
                    &&& m.size() == chunk_size
                },
                Err(e) => framing_error(payload@.len(), chunk_size) == Some(e),
            },
    {
        let id = random_message_id();
        ChunkedMessage::with_id(chunk_size, payload, id)
    }

    /// The identifier carried in every header.
    pub fn message_id(&self) -> (r: [u8; 8])
        ensures
            r@ == self.id(),
    {
        self.message_id
    }

    /// The chunk size the message was framed for.
    pub fn chunk_size(&self) -> (r: ChunkSize)
        ensures
            r == self.size(),
    {
        self.chunk_size
    }

    /// Number of chunks.
    pub fn total_chunks(&self) -> (r: usize)
        ensures
            r == self.chunk_views().len(),
    {
        self.chunks.len()
    }

    /// Total serialized length: the sum of the lengths of all chunks.
    pub fn len(&self) -> (r: usize)
        requires
            self.wf(),
        ensures
            r == total_length(self.chunk_views()),
    {
        self.total_len
    }

    /// The chunks, in ascending sequence order.
    pub fn chunks(&self) -> (r: &[Vec<u8>])
        ensures
            r@.map_values(|c: Vec<u8>| c@) == self.chunk_views(),
    {
        self.chunks.as_slice()
    }
}

/// Concatenating the payload sections of the chunks, in sequence order,
/// gives back the payload.
pub proof fn lemma_round_trip(p: Seq<u8>, size: ChunkSize, id: Seq<u8>)
    requires
        size.0 > HEADER_WIDTH,
        id.len() == ID_WIDTH,
    ensures
        payload_sections(framed(p, capacity(size) as nat, id)).flatten() == p,
{
    let cap = capacity(size) as nat;
    let n = chunk_count(p.len(), cap);
    lemma_count_bounds(p.len(), cap);
    assert forall|i: int| 0 <= i < n implies #[trigger] payload_sections(framed(p, cap, id))[i]
        == slices(p, cap)[i] by {
        let c = chunk_at(p, cap, id, i, n as int);
        assert(c.subrange(HEADER_WIDTH as int, c.len() as int) =~= slice_of(p, cap, i));
    }
    assert(payload_sections(framed(p, cap, id)) =~= slices(p, cap));
    lemma_flatten_from(p, cap, 0);
    assert(slices(p, cap).subrange(0, n as int) =~= slices(p, cap));
    assert(p.subrange(0, p.len() as int) =~= p);
}

/// The slices from the `k`-th on concatenate to the payload from byte `k * cap` on.
proof fn lemma_flatten_from(p: Seq<u8>, cap: nat, k: int)
    requires
        cap > 0,
        0 <= k <= chunk_count(p.len(), cap),
    ensures
        ({
            let n = chunk_count(p.len(), cap) as int;
            let start = if k * cap < p.len() {
                k * cap
            } else {
                p.len() as int
            };
            slices(p, cap).subrange(k, n).flatten() == p.subrange(start, p.len() as int)
        }),
    decreases chunk_count(p.len(), cap) - k,
{
    let n = chunk_count(p.len(), cap) as int;
    let s = slices(p, cap);
    lemma_count_bounds(p.len(), cap);
    if k == n {
        assert(k * cap >= p.len()) by (nonlinear_arith)
            requires
                k == n,
                p.len() <= n * cap,
        ;
        assert(s.subrange(k, n) =~= Seq::<Seq<u8>>::empty());
        assert(p.subrange(p.len() as int, p.len() as int) =~= Seq::<u8>::empty());
    } else {
        lemma_slice_start(p.len(), cap, k);
        lemma_flatten_from(p, cap, k + 1);
        assert(s.subrange(k, n).drop_first() =~= s.subrange(k + 1, n));
        assert((k + 1) * cap == k * cap + cap) by (nonlinear_arith);
        let end = if (k + 1) * cap < p.len() {
            (k + 1) * cap
        } else {
            p.len() as int
        };
        assert(p.subrange(k * cap, end) + p.subrange(end, p.len() as int) =~= p.subrange(
            k * cap,
            p.len() as int,
        ));
    }
}

/// No chunk is longer than the chunk size.
pub proof fn lemma_chunk_fits(p: Seq<u8>, size: ChunkSize, id: Seq<u8>)
    requires
        size.0 > HEADER_WIDTH,
        id.len() == ID_WIDTH,
    ensures
        forall|i: int|
            0 <= i < framed(p, capacity(size) as nat, id).len() ==> #[trigger] framed(
                p,
                capacity(size) as nat,
                id,
            )[i].len() <= size.0,
{
    let cap = capacity(size) as nat;
    assert forall|i: int| 0 <= i < framed(p, cap, id).len() implies #[trigger] framed(
        p,
        cap,
        id,
    )[i].len() <= size.0 by {
        lemma_slice_start(p.len(), cap, i);
        assert((i + 1) * cap == i * cap + cap) by (nonlinear_arith);
    }
}

/// The chunk count is the ceiling of the payload length over the capacity
/// of a chunk, and one for an empty payload.
pub proof fn lemma_count_is_ceiling(p: Seq<u8>, size: ChunkSize, id: Seq<u8>)
    requires
        size.0 > HEADER_WIDTH,
    ensures
        ({
            let n = framed(p, capacity(size) as nat, id).len() as int;
            let cap = capacity(size);
            &&& p.len() == 0 ==> n == 1
            &&& p.len() > 0 ==> (n - 1) * cap < p.len() <= n * cap
        }),
{
    lemma_count_bounds(p.len(), capacity(size) as nat);
}

/// Chunk `i` carries the identifier, sequence index `i` and the chunk
/// count, for every `i` from zero up to the chunk count.
pub proof fn lemma_sequence_indices(p: Seq<u8>, size: ChunkSize, id: Seq<u8>)
    requires
        framing_error(p.len(), size) is None,
        id.len() == ID_WIDTH,
    ensures
        ({
            let chunks = framed(p, capacity(size) as nat, id);
            forall|i: int|
                0 <= i < chunks.len() ==> {
                    &&& (#[trigger] chunks[i]).subrange(0, ID_WIDTH as int) == id
                    &&& chunks[i][ID_WIDTH as int] as int == i
                    &&& chunks[i][ID_WIDTH + 1] as int == chunks.len()
                }
        }),
{
    let chunks = framed(p, capacity(size) as nat, id);
    assert forall|i: int| 0 <= i < chunks.len() implies {
        &&& (#[trigger] chunks[i]).subrange(0, ID_WIDTH as int) == id
        &&& chunks[i][ID_WIDTH as int] as int == i
        &&& chunks[i][ID_WIDTH + 1] as int == chunks.len()
    } by {
        assert(chunks[i].subrange(0, ID_WIDTH as int) =~= id);
    }
}

} // verus!
