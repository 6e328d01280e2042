use vstd::prelude::*;
use vstd::bytes::{spec_u64_to_le_bytes, u64_to_le_bytes};

verus! {

#[verifier::external_type_specification]
#[verifier::external_body]
pub struct ExHasher(blake3::Hasher);

/// The BLAKE3 hash of `input`, as the 32 bytes that `blake3::hash(input)`
/// gives (`Hash::as_bytes`).
pub uninterp spec fn blake3_digest(input: Seq<u8>) -> Seq<u8>;

/// What an incremental `blake3::Hasher` holds: the bytes written to it so far,
/// in order. The crate documents a hasher that was given `b"foo"`, `b"bar"`
/// and `b"baz"` as finalizing to `blake3::hash(b"foobarbaz")`.
///
/// The wrappers below speak of plain hashers, made by `Hasher::new`: a keyed
/// or key-deriving hasher, or one given an input offset, finalizes to
/// something else. So they stay private, and the only hasher they ever see is
/// the one inside `Digester`, whose private field only `hasher_new` sets.
pub uninterp spec fn hasher_input(hasher: blake3::Hasher) -> Seq<u8>;

/// `blake3::Hasher::new`: a hasher that has been fed nothing.
#[verifier::external_body]
fn hasher_new() -> (hasher: blake3::Hasher)
    ensures
        hasher_input(hasher) == Seq::<u8>::empty(),
{
    blake3::Hasher::new()
}

/// `blake3::Hasher::update`: writes `data` after what the hasher held before.
/// (Its only assertion concerns hashers given an input offset through the
/// crate's `hazmat` module, which this library never does.)
#[verifier::external_body]
fn hasher_update(hasher: &mut blake3::Hasher, data: &[u8])
    ensures
        hasher_input(*final(hasher)) == hasher_input(*old(hasher)) + data@,
{
    hasher.update(data);
}

/// `blake3::Hasher::finalize`: the BLAKE3 hash of everything the hasher holds,
/// as its 32 raw bytes (`Hash::as_bytes`). (Its only assertion concerns
/// hashers given an input offset, which this library never does.)
#[verifier::external_body]
fn hasher_finalize(hasher: &blake3::Hasher) -> (digest: [u8; 32])
    ensures
        digest@ == blake3_digest(hasher_input(*hasher)),
{
    *hasher.finalize().as_bytes()
}

/// An incremental content hash: bytes are fed in any number of pieces and the
/// result is the BLAKE3 hash of all of them in order.
pub struct Digester {
    hasher: blake3::Hasher,
}

impl Digester {
    /// Everything fed so far, in order.
    pub closed spec fn input(&self) -> Seq<u8> {
        hasher_input(self.hasher)
    }

    /// A digester that has been fed nothing.
    pub fn new() -> (d: Digester)
        ensures
            d.input() == Seq::<u8>::empty(),
    {
        Digester { hasher: hasher_new() }
    }

    /// Feeds `data` after everything fed before.
    pub fn update(&mut self, data: &[u8])
        ensures
            final(self).input() == old(self).input() + data@,
    {
        hasher_update(&mut self.hasher, data);
    }

    /// The hash of everything fed so far.
    pub fn finish(&self) -> (digest: [u8; 32])
        ensures
            digest@ == blake3_digest(self.input()),
    {
        hasher_finalize(&self.hasher)
    }
}

/// How many bytes from the start and from the end of a file are sampled.
pub const SAMPLE: usize = 65536;

/// How many bytes from the start of a file of `size` bytes the sample holds:
/// all of them, up to `SAMPLE`.
pub open spec fn spec_head_len(size: u64) -> int {
    if size < SAMPLE {
        size as int
    } else {
        SAMPLE as int
    }
}

/// Whether the sample of a file of `size` bytes also holds its last `SAMPLE`
/// bytes: only when the file is more than twice `SAMPLE` long.
pub open spec fn spec_has_tail(size: u64) -> bool {
    size > 2 * SAMPLE
}

/// The length of the head sample of a file of `size` bytes.
pub fn head_len(size: u64) -> (n: usize)
    ensures
        n == spec_head_len(size),
{
    if size < SAMPLE as u64 {
        size as usize
    } else {
        SAMPLE
    }
}

/// Whether a file of `size` bytes is sampled at its end too.
pub fn has_tail(size: u64) -> (b: bool)
    ensures
        b == spec_has_tail(size),
{
    size > 2 * SAMPLE as u64
}

/// The quick fingerprint of a file of `size` bytes: the hash of its size
/// (8 bytes, little endian), then its first bytes, then, for large files, its
/// last `SAMPLE` bytes. Equal files always get equal fingerprints.
pub fn partial_digest(size: u64, head: &[u8], tail: &[u8]) -> (digest: [u8; 32])
    requires
        head@.len() == spec_head_len(size),
        tail@.len() == (if spec_has_tail(size) { SAMPLE as int } else { 0 }),
    ensures
        digest@ == blake3_digest(spec_u64_to_le_bytes(size) + head@ + tail@),
{
    let mut d = Digester::new();
    let prefix = u64_to_le_bytes(size);
    d.update(prefix.as_slice());
    d.update(head);
    d.update(tail);
    proof {
        assert(Seq::<u8>::empty() + spec_u64_to_le_bytes(size) =~= spec_u64_to_le_bytes(size));
    }
    d.finish()
}

/// Whether two digests hold the same bytes.
pub fn digests_equal(a: &[u8; 32], b: &[u8; 32]) -> (same: bool)
    ensures
        same == (a@ == b@),
{
    let mut i: usize = 0;
    while i < 32
        invariant
            0 <= i <= 32,
            a@.len() == 32,
            b@.len() == 32,
            forall|k: int| 0 <= k < i ==> a@[k] == b@[k],
        decreases 32 - i,
    {
        if a[i] != b[i] {
            return false;
        }
        i = i + 1;
    }
    proof {
        assert(a@ =~= b@);
    }
    true
}

} // verus!
