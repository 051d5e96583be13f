//! Content digests: a 64-bit XXH64 digest with a fixed seed, either over the
//! leading bytes of a file or streamed over its whole content.

use std::hash::Hasher;
use twox_hash::XxHash64;
use vstd::prelude::*;

verus! {

/// Seed of every digest this library computes.
pub const DIGEST_SEED: u64 = 0;

/// Number of leading bytes that the prefix digest covers at most.
pub const PREFIX_LEN: usize = 1024;

/// Suggested size of the buffer through which a whole file is streamed.
pub const STREAM_BUFFER_LEN: usize = 131072;

/// `twox_hash::XxHash64`, the running state of one digest. Nothing is known
/// of what it holds but what the functions below say.
#[verifier::external_type_specification]
#[verifier::external_body]
pub struct ExXxHash64(XxHash64);

/// The XXH64 digest of `input` under `seed`, as `twox_hash::XxHash64`
/// computes it.
pub uninterp spec fn xxh64(seed: u64, input: Seq<u8>) -> u64;

/// The seed that a `twox_hash::XxHash64` state was created with.
pub uninterp spec fn hasher_seed(h: XxHash64) -> u64;

/// All bytes written to a `twox_hash::XxHash64` state so far, in order.
pub uninterp spec fn hasher_input(h: XxHash64) -> Seq<u8>;

/// `XxHash64::with_seed`: a fresh state that remembers `seed` and has been
/// fed nothing.
#[verifier::external_body]
fn hasher_with_seed(seed: u64) -> (h: XxHash64)
    ensures
        hasher_seed(h) == seed,
        hasher_input(h) == Seq::<u8>::empty(),
{
    XxHash64::with_seed(seed)
}

/// `Hasher::write` of `XxHash64`: appends `bytes` to what the state has been
/// fed and keeps the seed. The state counts its input in a `u64`, so the
/// total must fit in one.
#[verifier::external_body]
fn hasher_write(h: &mut XxHash64, bytes: &[u8])
    requires
        hasher_input(*old(h)).len() + bytes@.len() <= u64::MAX,
    ensures
        hasher_seed(*final(h)) == hasher_seed(*old(h)),
        hasher_input(*final(h)) == hasher_input(*old(h)) + bytes@,
{
    h.write(bytes)
}

/// `Hasher::finish` of `XxHash64`: the digest of everything fed so far, which
/// depends on the seed and on the concatenated input only, not on how the
/// input was split over the writes.
#[verifier::external_body]
fn hasher_finish(h: &XxHash64) -> (d: u64)
    ensures
        d == xxh64(hasher_seed(*h), hasher_input(*h)),
{
    h.finish()
}

/// The digest that identifies `content`.
pub open spec fn content_digest(content: Seq<u8>) -> u64 {
    xxh64(DIGEST_SEED, content)
}

/// The part of `content` that the prefix digest covers: its first
/// `PREFIX_LEN` bytes, or all of it if it is shorter.
pub open spec fn leading_bytes(content: Seq<u8>) -> Seq<u8> {
    if content.len() <= PREFIX_LEN {
        content
    } else {
        content.take(PREFIX_LEN as int)
    }
}

/// The prefix digest of a file with this content.
pub open spec fn prefix_digest_of(content: Seq<u8>) -> u64 {
    content_digest(leading_bytes(content))
}

/// The prefix digest looks at the leading bytes only: two contents that are
/// at least `PREFIX_LEN` long and agree on their first `PREFIX_LEN` bytes
/// have the same prefix digest, whatever follows and however long they are.
pub proof fn lemma_prefix_digest_ignores_rest(a: Seq<u8>, b: Seq<u8>)
    requires
        a.len() >= PREFIX_LEN,
        b.len() >= PREFIX_LEN,
        a.take(PREFIX_LEN as int) == b.take(PREFIX_LEN as int),
    ensures
        prefix_digest_of(a) == prefix_digest_of(b),
{
    assert(leading_bytes(a) =~= a.take(PREFIX_LEN as int));
    assert(leading_bytes(b) =~= b.take(PREFIX_LEN as int));
}

/// A content of at most `PREFIX_LEN` bytes is covered whole: its prefix
/// digest is its content digest.
pub proof fn lemma_prefix_digest_of_short(content: Seq<u8>)
    requires
        content.len() <= PREFIX_LEN,
    ensures
        prefix_digest_of(content) == content_digest(content),
{
}

/// Digest of the leading bytes of a file. `head` holds what one read from
/// the start of the file returned; a short read is hashed as it is.
pub fn prefix_digest(head: &[u8]) -> (d: u64)
    ensures
        d == prefix_digest_of(head@),
{
    let mut state = hasher_with_seed(DIGEST_SEED);
    if head.len() <= PREFIX_LEN {
        hasher_write(&mut state, head);
        assert(hasher_input(state) =~= head@);
    } else {
        let lead = vstd::slice::slice_subrange(head, 0, PREFIX_LEN);
        hasher_write(&mut state, lead);
        assert(hasher_input(state) =~= head@.take(PREFIX_LEN as int));
    }
    hasher_finish(&state)
}

/// A running digest over the content of one file, fed chunk by chunk so that
/// only one buffer of the file is in memory at a time.
pub struct HashWriter {
    state: XxHash64,
    written: u64,
}

impl View for HashWriter {
    type V = Seq<u8>;

    /// Everything written so far, in order.
    closed spec fn view(&self) -> Seq<u8> {
        hasher_input(self.state)
    }
}

impl HashWriter {
    #[verifier::type_invariant]
    spec fn inv(self) -> bool {
        &&& hasher_seed(self.state) == DIGEST_SEED
        &&& hasher_input(self.state).len() == self.written
    }

    /// A writer that has been fed nothing yet.
    pub fn new() -> (w: HashWriter)
        ensures
            w@ == Seq::<u8>::empty(),
    {
        HashWriter { state: hasher_with_seed(DIGEST_SEED), written: 0 }
    }

    /// Number of bytes written so far.
    pub fn written(&self) -> (n: u64)
        ensures
            n == self@.len(),
    {
        proof {
            use_type_invariant(self);
        }
        self.written
    }

    /// Appends `chunk` to the content. The running length is kept in a
    /// `u64`: a chunk that would carry it past `u64::MAX` is refused and
    /// leaves the writer as it was.
    pub fn write(&mut self, chunk: &[u8]) -> (accepted: bool)
        ensures
            accepted <==> old(self)@.len() + chunk@.len() <= u64::MAX,
            accepted ==> final(self)@ == old(self)@ + chunk@,
            !accepted ==> final(self)@ == old(self)@,
    {
        proof {
            use_type_invariant(&*self);
        }
        let n: usize = chunk.len();
        if n as u64 > u64::MAX - self.written {
            return false;
        }
        let mut state = self.state;
        hasher_write(&mut state, chunk);
        *self = HashWriter { state, written: self.written + n as u64 };
        true
    }

    /// The digest of everything written so far. It is the digest of the
    /// concatenated content, however the content was cut into chunks.
    pub fn finish(&self) -> (d: u64)
        ensures
            d == content_digest(self@),
    {
        proof {
            use_type_invariant(self);
        }
        hasher_finish(&self.state)
    }
}

} // verus!
