use crate::lsdup::lenhash::{Identity, LenHash};
use vstd::prelude::*;

verus! {

/// Files at least this long are hashed through a memory mapping.
pub const MIN_MAPPED_LEN: u64 = 16384;

#[verifier::external_type_specification]
#[verifier::external_body]
pub struct ExHasher(blake3::Hasher);

/// The bytes that a blake3 hash state has been fed, in order.
pub uninterp spec fn hasher_input(h: blake3::Hasher) -> Seq<u8>;

/// The 256-bit BLAKE3 digest of a byte sequence.
pub uninterp spec fn blake3_of(bytes: Seq<u8>) -> Seq<u8>;

/// Relies on `blake3::Hasher::new`: a fresh state of the regular hash
/// function, fed nothing yet.
#[verifier::external_body]
fn hasher_new() -> (r: blake3::Hasher)
    ensures
        hasher_input(r) == Seq::<u8>::empty(),
{
    blake3::Hasher::new()
}

/// Relies on `blake3::Hasher::update`: the bytes are appended to the input.
/// It can panic only on a state given an input offset, which `hasher_new`
/// never sets.
#[verifier::external_body]
fn hasher_update(h: &mut blake3::Hasher, bytes: &[u8])
    ensures
        hasher_input(*final(h)) == hasher_input(*old(h)) + bytes@,
{
    h.update(bytes);
}

/// Relies on `blake3::Hasher::finalize`: the 32-byte hash of all the input
/// fed so far, the same as `blake3::hash` of that input. It leaves the state
/// as it was, and panics only on a state given an input offset.
#[verifier::external_body]
fn hasher_finalize(h: &blake3::Hasher) -> (r: [u8; 32])
    ensures
        r@ == blake3_of(hasher_input(*h)),
{
    *h.finalize().as_bytes()
}

/// Computes the content identity of a file from its bytes, fed either all
/// at once (from a memory mapping) or piece by piece (from a read loop).
pub struct ContentHasher {
    inner: blake3::Hasher,
}

impl View for ContentHasher {
    type V = Seq<u8>;

    /// The bytes fed so far.
    closed spec fn view(&self) -> Seq<u8> {
        hasher_input(self.inner)
    }
}

impl ContentHasher {
    /// A hasher that has been fed nothing.
    pub fn new() -> (r: ContentHasher)
        ensures
            r@ == Seq::<u8>::empty(),
    {
        ContentHasher { inner: hasher_new() }
    }

    /// Feeds the next bytes of the file.
    pub fn update(&mut self, bytes: &[u8])
        ensures
            final(self)@ == old(self)@ + bytes@,
    {
        hasher_update(&mut self.inner, bytes);
    }

    /// The identity of a file of `len` bytes whose contents are the bytes fed.
    pub fn finish(&self, len: u64) -> (r: LenHash)
        ensures
            r@ == (len, blake3_of(self@)),
    {
        let digest = hasher_finalize(&self.inner);
        LenHash::from(len, digest)
    }
}

/// Whether a file of `len` bytes is hashed through a memory mapping (true)
/// or through a streaming read (false). Short files are streamed, and so
/// are files too large for the address space.
pub fn use_mapping(len: u64) -> (r: bool)
    ensures
        r == (MIN_MAPPED_LEN <= len && len as int <= isize::MAX as int),
{
    len >= MIN_MAPPED_LEN && len <= isize::MAX as u64
}

/// The input of a hasher that started empty and was fed `pieces` in order,
/// one `update` each.
pub open spec fn fed_in_order(pieces: Seq<Seq<u8>>) -> Seq<u8>
    decreases pieces.len(),
{
    if pieces.len() == 0 {
        Seq::empty()
    } else {
        fed_in_order(pieces.drop_last()) + pieces.last()
    }
}

/// The identity of a file of `len` bytes whose bytes were fed as `pieces`.
pub open spec fn identity_of_pieces(len: u64, pieces: Seq<Seq<u8>>) -> Identity {
    (len, blake3_of(fed_in_order(pieces)))
}

/// Streaming and mapping agree: feeding a file's bytes in pieces, of any
/// sizes, gives the same content identity as feeding the whole mapped
/// region in one call.
pub proof fn lemma_streamed_matches_mapped(len: u64, pieces: Seq<Seq<u8>>)
    ensures
        identity_of_pieces(len, pieces) == identity_of_pieces(len, seq![pieces.flatten()]),
{
    lemma_fed_in_order_is_flatten(pieces);
    let whole = seq![pieces.flatten()];
    assert(whole.drop_last() =~= Seq::<Seq<u8>>::empty());
    assert(fed_in_order(whole.drop_last()) =~= Seq::<u8>::empty());
    assert(whole.last() == pieces.flatten());
    assert(fed_in_order(whole) =~= pieces.flatten());
}

proof fn lemma_fed_in_order_is_flatten(pieces: Seq<Seq<u8>>)
    ensures
        fed_in_order(pieces) == pieces.flatten(),
{
    pieces.lemma_flatten_and_flatten_alt_are_equivalent();
    lemma_fed_in_order_is_flatten_alt(pieces);
}

proof fn lemma_fed_in_order_is_flatten_alt(pieces: Seq<Seq<u8>>)
    ensures
        fed_in_order(pieces) == pieces.flatten_alt(),
    decreases pieces.len(),
{
    if pieces.len() > 0 {
        lemma_fed_in_order_is_flatten_alt(pieces.drop_last());
    }
}

} // verus!
