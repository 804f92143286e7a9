//! Content hashes.

use sha2::{Digest, Sha256};
use vstd::prelude::*;

verus! {

/// Bytes read at a time while hashing.
pub const HASH_BUF: usize = 1048576;

/// `sha2`'s SHA-256 state.
#[verifier::external_type_specification]
#[verifier::external_body]
pub struct ExSha256(sha2::Sha256);

/// The bytes that a SHA-256 state has taken in, in order.
pub uninterp spec fn absorbed(state: Sha256) -> Seq<u8>;

/// The SHA-256 digest of a byte string.
pub uninterp spec fn sha256(bytes: Seq<u8>) -> Seq<u8>;

/// `sha2`'s `Digest::new`: a state that has taken in nothing.
#[verifier::external_body]
fn start_state() -> (r: Sha256)
    ensures
        absorbed(r) == Seq::<u8>::empty(),
{
    Sha256::new()
}

/// `sha2`'s `Digest::update`: the bytes are taken in after those before them.
#[verifier::external_body]
fn feed_state(state: &mut Sha256, bytes: &[u8])
    ensures
        absorbed(*final(state)) == absorbed(*old(state)) + bytes@,
{
    state.update(bytes)
}

/// `sha2`'s `Digest::finalize`: the digest of everything taken in, 32 bytes.
#[verifier::external_body]
fn close_state(state: Sha256) -> (r: Vec<u8>)
    ensures
        r@ == sha256(absorbed(state)),
        r@.len() == 32,
{
    state.finalize().to_vec()
}

/// Hashes a file's contents as they are read, piece by piece.
#[derive(Debug)]
pub struct ContentHasher {
    state: Sha256,
}

impl View for ContentHasher {
    type V = Seq<u8>;

    /// The contents taken in so far.
    closed spec fn view(&self) -> Seq<u8> {
        absorbed(self.state)
    }
}

impl ContentHasher {
    pub fn new() -> (r: ContentHasher)
        ensures
            r@ == Seq::<u8>::empty(),
    {
        ContentHasher { state: start_state() }
    }

    /// Takes in the next piece.
    pub fn update(&mut self, piece: &[u8])
        ensures
            final(self)@ == old(self)@ + piece@,
    {
        feed_state(&mut self.state, piece);
    }

    /// The digest of the contents: 32 bytes, however the contents were cut.
    pub fn finish(self) -> (r: Vec<u8>)
        ensures
            r@ == sha256(self@),
            r@.len() == 32,
    {
        close_state(self.state)
    }
}

} // verus!
