//! Merkle commitments over revocation bitmaps.
//!
//! A revocation status list is a bitmap, one bit per identifier index: `1`
//! means revoked, `0` active.  This crate turns such a bitmap (stored as a
//! gzip-compressed byte stream) into the root hash of a balanced binary
//! Merkle tree whose leaves are the contiguous non-revoked ranges of the
//! index space, and can also produce, for a chosen index, the range that
//! contains it together with the inclusion path proving that range is a
//! leaf of the committed tree.

use vstd::prelude::*;

mod arith;
mod bytes;
mod error;
mod hash;
mod input;
mod path;
mod range;
mod tree;

pub use arith::{next_pow2, popcount};
pub use error::Error;
pub use hash::{sha256_of, HashFold};
pub use input::{bits_of_bytes, calls_of_bytes, gunzip_of, process_zipped_bits, MAX_INPUT_BYTES};
pub use path::{
    joins_view, lemma_path_fold_is_chain, lemma_path_verifies, spec_path_fold, Path, PathJoin,
    PathTracker,
};
pub use range::{
    found_range_of, last_revoked, lemma_found_range_of, lemma_parse_sorted,
    lemma_range_coverage, lemma_ranges_sorted, make_range, parse_emitted, parse_ranges,
    parse_state, per_bit_calls, range_bytes, range_hasher, range_leaf_hashes, range_path_hasher,
    sentinel_range, RangeCollect, RangeParser, RangePathTracker, RangeTarget, RangeTreeFolder,
};
pub use tree::{
    fold_sibling_chain, lemma_fill_matches_plain_pushes, lemma_path_soundness,
    lemma_spine_popcount, merkle_path, merkle_root, observer_coupled, perfect_path, perfect_root,
    spine, target_retired, TestFold, TreeFold, TreeFolder,
};

verus! {

/// What one hashing run reports: the number of real leaves, the number
/// after filling, and the root.
pub struct HashResult {
    pub leaf_count: usize,
    pub filled_count: usize,
    pub root: Option<Vec<u8>>,
}

/// An inclusion path of SHA-256 digests.
pub type HashPath = Path<Vec<u8>>;

/// The ranges a decompressed status list decodes to.
pub open spec fn ranges_of(d: Seq<u8>) -> Seq<(nat, nat)> {
    parse_ranges(calls_of_bytes(d))
}

/// The ranges committed to when the tree is padded to the next power of
/// two with the sentinel range.
pub open spec fn filled_ranges_of(d: Seq<u8>) -> Seq<(nat, nat)> {
    let rs = ranges_of(d);
    rs + Seq::new((next_pow2(rs.len()) - rs.len()) as nat, |i: int| sentinel_range())
}

/// The SHA-256 Merkle root over a sequence of ranges.
pub open spec fn root_of_ranges(rs: Seq<(nat, nat)>) -> Seq<u8> {
    merkle_root::<HashFold>(range_leaf_hashes::<HashFold>(rs))
}

/// The committed range sequence of any accepted input is well formed:
/// at least one range comes out, each is strict, they are strictly
/// increasing without overlap, and the last one ends at `u32::MAX`.
pub proof fn lemma_committed_ranges_sorted(d: Seq<u8>)
    requires
        d.len() <= MAX_INPUT_BYTES,
    ensures
        ({
            let rs = ranges_of(d);
            &&& rs.len() >= 1
            &&& rs[rs.len() - 1].1 == u32::MAX
            &&& forall|i: int| 0 <= i < rs.len() ==> (#[trigger] rs[i]).0 < rs[i].1
            &&& forall|i: int|
                0 <= i < rs.len() - 1 ==> (#[trigger] rs[i]).1 <= rs[i + 1].0
        }),
{
    crate::input::lemma_calls_counts(d);
    crate::input::lemma_calls_total_of_bytes(d);
    crate::range::lemma_parse_state_idx(calls_of_bytes(d));
    lemma_ranges_sorted(calls_of_bytes(d));
}

/// Hash a gzip-compressed status list: decode it, fold every non-revoked
/// range into the tree, optionally pad to the next power of two, and
/// return the counts and the root.  A stream that does not decode, or
/// whose decompressed size exceeds `MAX_INPUT_BYTES`, yields `Io`.
pub fn hash_zipped(zipped: &Vec<u8>, fill: bool) -> (r: Result<HashResult, Error>)
    ensures
        match gunzip_of(zipped@) {
            None => r matches Err(e) && e == Error::Io,
            Some(d) => {
                if d.len() <= MAX_INPUT_BYTES {
                    r matches Ok(hr) && ({
                        let full = if fill {
                            filled_ranges_of(d)
                        } else {
                            ranges_of(d)
                        };
                        &&& hr.leaf_count == ranges_of(d).len()
                        &&& hr.filled_count == full.len()
                        &&& (hr.root matches Some(root) && root@ == root_of_ranges(full))
                    })
                } else {
                    r matches Err(e) && e == Error::Io
                }
            },
        },
{
    let target = range_hasher();
    let parser = RangeParser::new(target);
    let mut parsed = match process_zipped_bits(zipped, parser) {
        Ok(t) => t,
        Err(e) => {
            return Err(e);
        },
    };
    let ghost d = gunzip_of(zipped@).unwrap();
    let leaf_count = parsed.len();
    let filled_count = if fill {
        parsed.fill();
        proof {
            assert(parsed.ranges@ =~= filled_ranges_of(d));
        }
        parsed.len()
    } else {
        leaf_count
    };
    let root = parsed.result();
    Ok(HashResult { leaf_count, filled_count, root })
}

/// Hash a gzip-compressed status list with the tree always padded, while
/// tracking `index`: returns the non-revoked range strictly containing
/// `index` together with the inclusion path of its leaf (both absent
/// when `index` is revoked), and the counts and root as `hash_zipped`
/// with fill reports them.
pub fn find_merkle_path(zipped: &Vec<u8>, index: u32) -> (r: Result<
    (Option<(u32, u32)>, Option<HashPath>, HashResult),
    Error,
>)
    ensures
        match gunzip_of(zipped@) {
            None => r matches Err(e) && e == Error::Io,
            Some(d) => {
                if d.len() <= MAX_INPUT_BYTES {
                    r matches Ok(found) && ({
                        let full = filled_ranges_of(d);
                        &&& found.2.leaf_count == ranges_of(d).len()
                        &&& found.2.filled_count == full.len()
                        &&& (found.2.root matches Some(root) && root@ == root_of_ranges(full))
                        &&& match found_range_of(index, ranges_of(d)) {
                            None => found.0 is None,
                            Some(p) => (found.0 matches Some((l, rr)) && l as nat == p.0
                                && rr as nat == p.1 && ranges_of(d).contains(p) && p.0 < index
                                && index < p.1),
                        }
                        &&& (found.0 is Some <==> exists|j: int|
                            0 <= j < ranges_of(d).len() && (#[trigger] ranges_of(d)[j]).0 < index
                                && index < ranges_of(d)[j].1)
                        &&& (found.1 is Some <==> found.0 is Some)
                        &&& (found.1 matches Some(p) ==> (found.0 matches Some((l, rr))
                            && p.leaf@ == sha256_of(range_bytes(l, rr)) && spec_path_fold::<
                            HashFold,
                        >(p.leaf@, p.join@) == root_of_ranges(filled_ranges_of(d))))
                    })
                } else {
                    r matches Err(e) && e == Error::Io
                }
            },
        },
{
    let target = range_path_hasher(index);
    let parser = RangeParser::new(target);
    let mut parsed = match process_zipped_bits(zipped, parser) {
        Ok(t) => t,
        Err(e) => {
            return Err(e);
        },
    };
    let ghost d = gunzip_of(zipped@).unwrap();
    let leaf_count = parsed.len();
    parsed.fill();
    proof {
        assert(parsed.ranges() =~= filled_ranges_of(d));
        let pad = (next_pow2(ranges_of(d).len()) - ranges_of(d).len()) as nat;
        crate::range::lemma_found_range_sentinels(index, ranges_of(d), pad);
        lemma_found_range_of(index, ranges_of(d));
    }
    let filled_count = parsed.len();
    let (found_range, found_path, root) = parsed.result();
    Ok((found_range, found_path, HashResult { leaf_count, filled_count, root }))
}

} // verus!
