//! Content digests: the two algorithms a run can choose between, a digest
//! value, and a hasher that takes its input piece by piece.

use crate::vfs::FsError;
use vstd::prelude::*;

verus! {

/// The digest algorithm of a run. `Fast` is MD5; `Paranoid` is SHA3-256,
/// longer and cryptographically stronger.
#[derive(Debug, Clone, Copy, PartialEq, Eq, Structural)]
pub enum DigestKind {
    Fast,
    Paranoid,
}

/// `md5::Context`, an MD5 computation in progress. The proofs see nothing
/// inside it.
#[verifier::external_type_specification]
#[verifier::external_body]
pub struct ExMd5Context(md5::Context);

/// `sha3::Sha3_256`, a SHA3-256 computation in progress. The proofs see
/// nothing inside it.
#[verifier::external_type_specification]
#[verifier::external_body]
pub struct ExSha3Hasher(sha3::Sha3_256);

/// The bytes that an `md5::Context` has consumed so far, in order.
pub uninterp spec fn md5_absorbed(ctx: md5::Context) -> Seq<u8>;

/// The MD5 digest of a byte sequence, as `md5::Context::finalize` returns it
/// once that sequence has been consumed.
pub uninterp spec fn md5_sum(data: Seq<u8>) -> Seq<u8>;

/// The bytes that a `sha3::Sha3_256` hasher has been updated with so far, in
/// order.
pub uninterp spec fn sha3_absorbed(hasher: sha3::Sha3_256) -> Seq<u8>;

/// The SHA3-256 digest of a byte sequence, as `sha3::Digest::finalize`
/// returns it for a `Sha3_256` hasher updated with that sequence.
pub uninterp spec fn sha3_256_sum(data: Seq<u8>) -> Seq<u8>;

/// `md5::Context::new`: a fresh context has consumed nothing.
#[verifier::external_body]
fn md5_start() -> (ctx: md5::Context)
    ensures
        md5_absorbed(ctx) == Seq::<u8>::empty(),
{
    md5::Context::new()
}

/// `md5::Context::consume`: the bytes given are added, in order, behind what
/// the context had consumed before.
#[verifier::external_body]
fn md5_consume(ctx: &mut md5::Context, data: &[u8])
    ensures
        md5_absorbed(*final(ctx)) == md5_absorbed(*old(ctx)) + data@,
{
    ctx.consume(data)
}

/// `md5::Context::finalize`: the MD5 digest of everything the context has
/// consumed, which is 16 bytes long.
#[verifier::external_body]
fn md5_finish(ctx: md5::Context) -> (out: Vec<u8>)
    ensures
        out@ == md5_sum(md5_absorbed(ctx)),
        out@.len() == 16,
{
    ctx.finalize().0.to_vec()
}

/// `sha3::Sha3_256::default`, which is what `sha3::Digest::new` calls: a fresh
/// hasher has been updated with nothing.
#[verifier::external_body]
fn sha3_start() -> (hasher: sha3::Sha3_256)
    ensures
        sha3_absorbed(hasher) == Seq::<u8>::empty(),
{
    sha3::Sha3_256::default()
}

/// `sha3::Digest::update` on a `Sha3_256` hasher: the bytes given are added,
/// in order, behind what the hasher had been updated with before.
#[verifier::external_body]
fn sha3_update(hasher: &mut sha3::Sha3_256, data: &[u8])
    ensures
        sha3_absorbed(*final(hasher)) == sha3_absorbed(*old(hasher)) + data@,
{
    sha3::Digest::update(hasher, data)
}

/// `sha3::Digest::finalize` on a `Sha3_256` hasher: the SHA3-256 digest of
/// everything the hasher was updated with, which is 32 bytes long.
#[verifier::external_body]
fn sha3_finish(hasher: sha3::Sha3_256) -> (out: Vec<u8>)
    ensures
        out@ == sha3_256_sum(sha3_absorbed(hasher)),
        out@.len() == 32,
{
    sha3::Digest::finalize(hasher).to_vec()
}

/// The digest of `data` under the algorithm `kind`.
pub open spec fn digest_of(kind: DigestKind, data: Seq<u8>) -> Seq<u8> {
    match kind {
        DigestKind::Fast => md5_sum(data),
        DigestKind::Paranoid => sha3_256_sum(data),
    }
}

/// The length in bytes of every digest that the algorithm `kind` produces.
pub open spec fn digest_len(kind: DigestKind) -> nat {
    match kind {
        DigestKind::Fast => 16,
        DigestKind::Paranoid => 32,
    }
}

/// The part of a file's content that its partial digest covers: the first
/// `FIRST_K_BYTES` bytes, or all of it where the file is shorter.
pub open spec fn leading_bytes(content: Seq<u8>) -> Seq<u8> {
    if content.len() <= crate::FIRST_K_BYTES {
        content
    } else {
        content.take(crate::FIRST_K_BYTES as int)
    }
}

/// A digest value. Its view is the sequence of its bytes.
#[derive(Debug)]
pub struct Digest {
    bytes: Vec<u8>,
}

impl View for Digest {
    type V = Seq<u8>;

    closed spec fn view(&self) -> Seq<u8> {
        self.bytes@
    }
}

impl Digest {
    /// The digest that consists of the given bytes.
    pub fn from_bytes(bytes: Vec<u8>) -> (d: Digest)
        ensures
            d@ == bytes@,
    {
        Digest { bytes }
    }

    /// The bytes of the digest.
    pub fn as_bytes(&self) -> (bytes: &Vec<u8>)
        ensures
            bytes@ == self@,
    {
        &self.bytes
    }

    /// A copy of the digest.
    pub fn duplicate(&self) -> (d: Digest)
        ensures
            d@ == self@,
    {
        let mut bytes: Vec<u8> = Vec::new();
        let mut i: usize = 0;
        while i < self.bytes.len()
            invariant
                i <= self.bytes.len(),
                bytes@ == self.bytes@.take(i as int),
            decreases self.bytes.len() - i,
        {
            bytes.push(self.bytes[i]);
            i += 1;
        }
        assert(self.bytes@.take(i as int) == self.bytes@);
        Digest { bytes }
    }

    /// Whether two digests consist of the same bytes.
    pub fn same(&self, other: &Digest) -> (eq: bool)
        ensures
            eq == (self@ == other@),
    {
        if self.bytes.len() != other.bytes.len() {
            return false;
        }
        let mut i: usize = 0;
        while i < self.bytes.len()
            invariant
                i <= self.bytes.len(),
                self.bytes.len() == other.bytes.len(),
                self.bytes@.take(i as int) == other.bytes@.take(i as int),
            decreases self.bytes.len() - i,
        {
            if self.bytes[i] != other.bytes[i] {
                return false;
            }
            assert(self.bytes@.take(i + 1) == self.bytes@.take(i as int).push(self.bytes@[i as int]));
            assert(other.bytes@.take(i + 1) == other.bytes@.take(i as int).push(other.bytes@[i as int]));
            i += 1;
        }
        assert(self.bytes@.take(i as int) == self.bytes@);
        assert(other.bytes@.take(i as int) == other.bytes@);
        true
    }
}

/// The state of a hasher: one variant for each algorithm.
enum HashState {
    Fast(md5::Context),
    Paranoid(sha3::Sha3_256),
}

/// A hasher that takes its input in pieces, so that a long input never has
/// to be held in memory as a whole.
pub struct StreamDigest {
    state: HashState,
}

impl StreamDigest {
    /// The algorithm that the hasher runs.
    pub closed spec fn kind(&self) -> DigestKind {
        match self.state {
            HashState::Fast(_) => DigestKind::Fast,
            HashState::Paranoid(_) => DigestKind::Paranoid,
        }
    }

    /// All the bytes the hasher has been given so far, in order.
    pub closed spec fn absorbed(&self) -> Seq<u8> {
        match self.state {
            HashState::Fast(ctx) => md5_absorbed(ctx),
            HashState::Paranoid(hasher) => sha3_absorbed(hasher),
        }
    }

    /// A hasher for `kind` that has been given nothing yet.
    pub fn new(kind: DigestKind) -> (s: StreamDigest)
        ensures
            s.kind() == kind,
            s.absorbed() == Seq::<u8>::empty(),
    {
        match kind {
            DigestKind::Fast => StreamDigest { state: HashState::Fast(md5_start()) },
            DigestKind::Paranoid => StreamDigest { state: HashState::Paranoid(sha3_start()) },
        }
    }

    /// Gives the hasher the next piece of its input.
    pub fn update(&mut self, data: &[u8])
        ensures
            final(self).kind() == old(self).kind(),
            final(self).absorbed() == old(self).absorbed() + data@,
    {
        match &mut self.state {
            HashState::Fast(ctx) => md5_consume(ctx, data),
            HashState::Paranoid(hasher) => sha3_update(hasher, data),
        }
    }

    /// The digest of all that the hasher was given.
    pub fn finish(self) -> (d: Digest)
        ensures
            d@ == digest_of(self.kind(), self.absorbed()),
            d@.len() == digest_len(self.kind()),
    {
        match self.state {
            HashState::Fast(ctx) => Digest { bytes: md5_finish(ctx) },
            HashState::Paranoid(hasher) => Digest { bytes: sha3_finish(hasher) },
        }
    }
}

/// The digest of `data` under the algorithm `kind`.
pub fn digest_bytes(kind: DigestKind, data: &[u8]) -> (d: Digest)
    ensures
        d@ == digest_of(kind, data@),
        d@.len() == digest_len(kind),
{
    let mut hasher = StreamDigest::new(kind);
    hasher.update(data);
    assert(Seq::<u8>::empty() + data@ == data@);
    hasher.finish()
}

/// The digest of the part of `content` that a partial digest covers.
pub fn partial_digest(kind: DigestKind, content: &[u8]) -> (d: Digest)
    ensures
        d@ == digest_of(kind, leading_bytes(content@)),
        d@.len() == digest_len(kind),
{
    if content.len() <= crate::FIRST_K_BYTES {
        digest_bytes(kind, content)
    } else {
        let head = vstd::slice::slice_subrange(content, 0, crate::FIRST_K_BYTES);
        digest_bytes(kind, head)
    }
}

/// The most bytes that a read for a full digest asks for at once.
pub const CHUNK_SIZE: usize = 4096;

/// A full digest in the making, as a value of the model: the algorithm, the
/// length the content is expected to have, the bytes taken in so far and
/// the error that ended the reading, if one did.
pub struct ChunkedView {
    pub kind: DigestKind,
    pub size: u64,
    pub absorbed: Seq<u8>,
    pub failed: Option<FsError>,
}

/// How many bytes the next read is to ask for: the rest of the content, but
/// no more than `CHUNK_SIZE`, and nothing once the reading has failed.
pub open spec fn wanted_spec(v: ChunkedView) -> nat {
    if v.failed is Some || v.absorbed.len() >= v.size {
        0
    } else if v.size - v.absorbed.len() <= CHUNK_SIZE {
        (v.size - v.absorbed.len()) as nat
    } else {
        CHUNK_SIZE as nat
    }
}

/// The digest in the making after the next read came back. A read that
/// failed ends the reading with its error. So does one that brought
/// nothing, or more than was asked for, with `ReadFailure`. Otherwise the
/// bytes are taken in. Where nothing was asked for, nothing changes.
pub open spec fn feed_spec(v: ChunkedView, chunk: Result<Seq<u8>, FsError>) -> ChunkedView {
    if wanted_spec(v) == 0 {
        v
    } else {
        match chunk {
            Err(e) => ChunkedView { failed: Some(e), ..v },
            Ok(bytes) => if bytes.len() == 0 || bytes.len() > wanted_spec(v) {
                ChunkedView { failed: Some(FsError::ReadFailure), ..v }
            } else {
                ChunkedView { absorbed: v.absorbed + bytes, ..v }
            },
        }
    }
}

/// The digest in the making after a series of reads came back, one after
/// the other.
pub open spec fn fed(v: ChunkedView, chunks: Seq<Result<Seq<u8>, FsError>>) -> ChunkedView
    decreases chunks.len(),
{
    if chunks.len() == 0 {
        v
    } else {
        feed_spec(fed(v, chunks.drop_last()), chunks.last())
    }
}

/// What the reading comes to in the end: the digest of all that was read,
/// where the whole content was read; else the error that ended the reading,
/// or `ReadFailure` where the reading was given up before the end.
pub open spec fn finished(v: ChunkedView) -> Result<Seq<u8>, FsError> {
    match v.failed {
        Some(e) => Err(e),
        None => if v.absorbed.len() == v.size {
            Ok(digest_of(v.kind, v.absorbed))
        } else {
            Err(FsError::ReadFailure)
        },
    }
}

/// What the making of a digest came to: the bytes of the digest, or the
/// error.
pub open spec fn outcome_view(outcome: Result<Digest, FsError>) -> Result<Seq<u8>, FsError> {
    match outcome {
        Ok(d) => Ok(d@),
        Err(e) => Err(e),
    }
}

/// What a chunk is to the digest in the making: its bytes, or the error.
pub open spec fn chunk_view(chunk: Result<Vec<u8>, FsError>) -> Result<Seq<u8>, FsError> {
    match chunk {
        Ok(bytes) => Ok(bytes@),
        Err(e) => Err(e),
    }
}

/// The full digest of a content of known length, made from reads of at
/// most `CHUNK_SIZE` bytes each, so that the memory it takes does not grow
/// with the content.
pub struct ChunkedDigest {
    hasher: StreamDigest,
    size: u64,
    done: u64,
    failed: Option<FsError>,
}

impl View for ChunkedDigest {
    type V = ChunkedView;

    closed spec fn view(&self) -> ChunkedView {
        ChunkedView {
            kind: self.hasher.kind(),
            size: self.size,
            absorbed: self.hasher.absorbed(),
            failed: self.failed,
        }
    }
}

impl ChunkedDigest {
    /// Whether the count of the bytes taken in is right.
    pub closed spec fn wf(&self) -> bool {
        &&& self.done == self.hasher.absorbed().len()
        &&& self.done <= self.size
    }

    /// A digest in the making for a content of `size` bytes, of which
    /// nothing was read yet.
    pub fn new(kind: DigestKind, size: u64) -> (job: ChunkedDigest)
        ensures
            job.wf(),
            job@ == (ChunkedView { kind, size, absorbed: Seq::empty(), failed: None }),
    {
        ChunkedDigest { hasher: StreamDigest::new(kind), size, done: 0, failed: None }
    }

    /// How many bytes the next read is to ask for; 0 when the reading is
    /// over.
    pub fn wanted(&self) -> (n: usize)
        requires
            self.wf(),
        ensures
            n == wanted_spec(self@),
    {
        if self.failed.is_some() || self.done >= self.size {
            0
        } else if self.size - self.done <= CHUNK_SIZE as u64 {
            (self.size - self.done) as usize
        } else {
            CHUNK_SIZE
        }
    }

    /// Where in the content the next read is to start.
    pub fn offset(&self) -> (at: u64)
        requires
            self.wf(),
        ensures
            at == self@.absorbed.len(),
    {
        self.done
    }

    /// Takes in what the next read came to.
    pub fn feed(&mut self, chunk: Result<Vec<u8>, FsError>)
        requires
            old(self).wf(),
        ensures
            final(self).wf(),
            final(self)@ == feed_spec(old(self)@, chunk_view(chunk)),
    {
        let want = self.wanted();
        if want == 0 {
            return ;
        }
        match chunk {
            Err(e) => {
                self.failed = Some(e);
            },
            Ok(bytes) => {
                if bytes.len() == 0 || bytes.len() > want {
                    self.failed = Some(FsError::ReadFailure);
                } else {
                    self.hasher.update(bytes.as_slice());
                    self.done = self.done + bytes.len() as u64;
                }
            },
        }
    }

    /// What the reading came to in the end.
    pub fn finish(self) -> (r: Result<Digest, FsError>)
        requires
            self.wf(),
        ensures
            outcome_view(r) == finished(self@),
            r matches Ok(d) ==> d@.len() == digest_len(self@.kind),
    {
        match self.failed {
            Some(e) => Err(e),
            None => if self.done == self.size {
                Ok(self.hasher.finish())
            } else {
                Err(FsError::ReadFailure)
            },
        }
    }
}

} // verus!
