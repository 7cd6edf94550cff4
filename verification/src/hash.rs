//! The SHA-256 byte-hash backend.

use vstd::prelude::*;
use crate::bytes::{copy_bytes, push_all};
use crate::error::Error;
use crate::tree::TreeFold;

verus! {

/// The SHA-256 digest of a byte string: 32 bytes, a function of the
/// input alone.
pub uninterp spec fn sha256_of(data: Seq<u8>) -> Seq<u8>;

/// Relies on sha2::Sha256::digest: the SHA-256 digest of the input
/// bytes; SHA-256 output is 32 bytes.
#[verifier::external_body]
fn sha256(data: &[u8]) -> (r: Vec<u8>)
    ensures
        r@ == sha256_of(data@),
        r@.len() == 32,
{
    <sha2::Sha256 as sha2::Digest>::digest(data).to_vec()
}

/// The SHA-256 backend: a leaf is hashed directly, and a parent is the
/// hash of the two children's digests concatenated.  It records nothing;
/// the flag only acknowledges the fill window the backend contract
/// describes.
pub struct HashFold {
    fill: bool,
}

impl HashFold {
    pub fn new() -> (r: Self)
        ensures
            !r.fill_mode(),
    {
        HashFold { fill: false }
    }
}

impl TreeFold for HashFold {
    type Leaf = Vec<u8>;

    type Target = Vec<u8>;

    open spec fn leaf_hash(leaf: Seq<u8>) -> Seq<u8> {
        sha256_of(leaf)
    }

    open spec fn node_hash(a: Seq<u8>, b: Seq<u8>) -> Seq<u8> {
        sha256_of(a + b)
    }

    fn input(&mut self, leaf: &Vec<u8>) -> (r: Result<Vec<u8>, Error>)
        ensures
            r matches Ok(h) && h@.len() == 32,
    {
        Ok(sha256(leaf.as_slice()))
    }

    fn fold(&mut self, a: &Vec<u8>, b: &Vec<u8>) -> (r: Result<Vec<u8>, Error>)
        ensures
            r matches Ok(h) && h@.len() == 32,
    {
        let mut buf: Vec<u8> = Vec::new();
        push_all(&mut buf, a);
        push_all(&mut buf, b);
        proof {
            assert(buf@ =~= a@ + b@);
        }
        Ok(sha256(buf.as_slice()))
    }

    fn dup(t: &Vec<u8>) -> (r: Vec<u8>) {
        copy_bytes(t)
    }

    fn start_fill(&mut self) {
        self.fill = true;
    }

    fn end_fill(&mut self) {
        self.fill = false;
    }

    closed spec fn fill_mode(&self) -> bool {
        self.fill
    }

    open spec fn recorded_leaf(&self) -> Option<Seq<u8>> {
        None
    }

    open spec fn tracked_index(&self) -> Option<nat> {
        None
    }

    open spec fn leaves_seen(&self) -> nat {
        0
    }

    open spec fn observing() -> bool {
        false
    }

    open spec fn depth(&self) -> nat {
        0
    }

    open spec fn target_depth(&self) -> Option<nat> {
        None
    }

    open spec fn recorded_fold(&self) -> Option<Seq<u8>> {
        None
    }
}

} // verus!
