//! Ranges of non-revoked indices: their serialisation, the targets that
//! receive them, and the streaming parser that produces them from bits.

use vstd::prelude::*;
use crate::bytes::slice_to_vec;
use crate::error::Error;
use crate::hash::HashFold;
use crate::path::{spec_path_fold, Path, PathTracker};
use crate::tree::{HashOf, TreeFold, TreeFolder};

verus! {

/// The four big-endian bytes of a 32-bit value.
pub open spec fn be32(x: u32) -> Seq<u8> {
    seq![
        ((x >> 24) & 0xff) as u8,
        ((x >> 16) & 0xff) as u8,
        ((x >> 8) & 0xff) as u8,
        (x & 0xff) as u8,
    ]
}

/// The 8-byte leaf a range is serialised to: `left` big-endian in bytes
/// 0..3, `right` big-endian in bytes 4..7.
pub open spec fn range_bytes(left: u32, right: u32) -> Seq<u8> {
    be32(left) + be32(right)
}

/// Serialise a range to its 8-byte leaf.
pub fn make_range(left: u32, right: u32) -> (r: [u8; 8])
    ensures
        r@ == range_bytes(left, right),
{
    proof {
        assert((left >> 24) & 0xff < 256 && (left >> 16) & 0xff < 256 && (left >> 8) & 0xff < 256
            && left & 0xff < 256 && (right >> 24) & 0xff < 256 && (right >> 16) & 0xff < 256 && (
        right >> 8) & 0xff < 256 && right & 0xff < 256) by (bit_vector);
    }
    let r: [u8; 8] = [
        ((left >> 24) & 0xff) as u8,
        ((left >> 16) & 0xff) as u8,
        ((left >> 8) & 0xff) as u8,
        (left & 0xff) as u8,
        ((right >> 24) & 0xff) as u8,
        ((right >> 16) & 0xff) as u8,
        ((right >> 8) & 0xff) as u8,
        (right & 0xff) as u8,
    ];
    proof {
        assert(r@ =~= range_bytes(left, right));
    }
    r
}

/// Anything ranges can be pushed into, in order: the tree folders and
/// the collector below implement it.  The abstract state is the sequence
/// of ranges received so far.
pub trait RangeTarget: Sized {
    /// Every range pushed so far, in order.
    spec fn ranges(&self) -> Seq<(nat, nat)>;

    /// The target is ready to receive ranges.
    spec fn inv(&self) -> bool;

    /// The index the target was configured to look for, if any;
    /// receiving ranges never changes it.
    spec fn config(&self) -> Option<u32>;

    fn push_range(&mut self, left: u32, right: u32) -> (r: Result<(), Error>)
        requires
            old(self).inv(),
            old(self).ranges().len() < 0x8000_0000,
        ensures
            r is Ok,
            final(self).inv(),
            final(self).ranges() == old(self).ranges().push((left as nat, right as nat)),
            final(self).config() == old(self).config(),
    ;
}

/// The leaf hash a backend `F` gives to one range.
pub open spec fn range_leaf_hash<F: TreeFold<Leaf = Vec<u8>>>(p: (nat, nat)) -> HashOf<F> {
    F::leaf_hash(range_bytes(p.0 as u32, p.1 as u32))
}

/// The leaf hashes of a sequence of ranges.
pub open spec fn range_leaf_hashes<F: TreeFold<Leaf = Vec<u8>>>(rs: Seq<(nat, nat)>) -> Seq<
    HashOf<F>,
> {
    Seq::new(rs.len(), |i: int| range_leaf_hash::<F>(rs[i]))
}

/// The fill sentinel, as a range.
pub open spec fn sentinel_range() -> (nat, nat) {
    (u32::MAX as nat, u32::MAX as nat)
}

/// A fresh SHA-256 range folder.
pub fn range_hasher() -> (r: RangeTreeFolder<HashFold>)
    ensures
        r.inv(),
        r.ranges@ == Seq::<(nat, nat)>::empty(),
{
    RangeTreeFolder::new(HashFold::new())
}

/// A fresh SHA-256 range folder that also records the inclusion path of
/// the range containing `find_index`.
pub fn range_path_hasher(find_index: u32) -> (r: RangePathTracker<HashFold>)
    ensures
        r.inv(),
        r.ranges() == Seq::<(nat, nat)>::empty(),
        r.find_index == find_index,
        r.range is None,
{
    RangePathTracker::new(HashFold::new(), find_index)
}

/// A tree folder presented range by range: each pushed range is
/// serialised to its 8-byte leaf and folded in.
pub struct RangeTreeFolder<F: TreeFold<Leaf = Vec<u8>>> {
    pub folder: TreeFolder<F>,
    pub ranges: Ghost<Seq<(nat, nat)>>,
}

impl<F: TreeFold<Leaf = Vec<u8>>> RangeTreeFolder<F> {
    pub fn new(base: F) -> (r: Self)
        ensures
            r.inv(),
            r.ranges@ == Seq::<(nat, nat)>::empty(),
            r.folder.spec_base() == base,
    {
        let r = RangeTreeFolder { folder: TreeFolder::new(base), ranges: Ghost(Seq::empty()) };
        proof {
            assert(r.folder.leaves() =~= range_leaf_hashes::<F>(r.ranges@));
        }
        r
    }

    /// Pad the tree to the next power of two with sentinel ranges and
    /// return the number of leaves appended.
    pub fn fill(&mut self) -> (r: usize)
        requires
            old(self).inv(),
            old(self).ranges@.len() <= usize::MAX / 2 + 1,
        ensures
            final(self).inv(),
            ({
                let n = old(self).ranges@.len();
                let pad = (crate::arith::next_pow2(n) - n) as nat;
                &&& r == pad
                &&& final(self).ranges@ == old(self).ranges@ + Seq::new(
                    pad,
                    |i: int| sentinel_range(),
                )
            }),
            // a count that is already a power of two makes fill a no-op
            crate::arith::next_pow2(old(self).ranges@.len()) == old(self).ranges@.len()
                ==> *final(self) == *old(self),
            !old(self).folder.spec_base().fill_mode() ==> (!final(self).folder.spec_base().fill_mode() && final(self).folder.spec_base().recorded_leaf()
                == old(self).folder.spec_base().recorded_leaf() && final(self).folder.spec_base().tracked_index() == old(self).folder.spec_base().tracked_index()
                && final(self).folder.spec_base().leaves_seen() == old(self).folder.spec_base().leaves_seen()),
            (F::observing() && !old(self).folder.spec_base().fill_mode()
                && crate::tree::observer_coupled::<F>(
                old(self).folder.spec_base(),
                crate::tree::spine::<F>(range_leaf_hashes::<F>(old(self).ranges@)),
            )) ==> crate::tree::observer_coupled::<F>(
                final(self).folder.spec_base(),
                crate::tree::spine::<F>(range_leaf_hashes::<F>(final(self).ranges@)),
            ),
            (F::observing() && !old(self).folder.spec_base().fill_mode()) ==> (final(self).folder.spec_base().target_depth() is Some <==> old(self).folder.spec_base().target_depth() is Some),
    {
        let ghost rs0 = self.ranges@;
        let sentinel = make_range(u32::MAX, u32::MAX);
        let leaf = slice_to_vec(sentinel.as_slice());
        let count = self.folder.fill(leaf).unwrap();
        let ghost pad = Seq::new(count as nat, |i: int| sentinel_range());
        self.ranges = Ghost(self.ranges@ + pad);
        proof {
            assert(self.folder.leaves() =~= range_leaf_hashes::<F>(self.ranges@));
            if count == 0 {
                assert(rs0 + pad =~= rs0);
            }
        }
        count
    }

    /// The number of leaves so far, filled ones included.
    pub fn len(&self) -> (r: usize)
        requires
            self.inv() || self.finalized(),
        ensures
            r == self.ranges@.len(),
    {
        self.folder.len()
    }

    /// The root over everything pushed, or `None` if nothing was.
    pub fn result(&mut self) -> (r: Option<F::Target>)
        requires
            old(self).inv() || old(self).finalized(),
        ensures
            final(self).ranges@ == old(self).ranges@,
            old(self).ranges@.len() == 0 ==> r is None && final(self).inv(),
            old(self).ranges@.len() >= 1 ==> (r matches Some(root) && root@
                == crate::tree::merkle_root::<F>(range_leaf_hashes::<F>(old(self).ranges@))
                && final(self).finalized()),
    {
        self.folder.result().unwrap()
    }

    /// Like `result`, but hands the backend back as well.
    pub fn complete(self) -> (r: (Option<F::Target>, F))
        requires
            self.inv() || self.finalized(),
        ensures
            self.ranges@.len() == 0 ==> r.0 is None,
            self.ranges@.len() >= 1 ==> (r.0 matches Some(root) && root@
                == crate::tree::merkle_root::<F>(range_leaf_hashes::<F>(self.ranges@))),
            r.1.fill_mode() == self.folder.spec_base().fill_mode(),
            r.1.recorded_leaf() == self.folder.spec_base().recorded_leaf(),
            r.1.tracked_index() == self.folder.spec_base().tracked_index(),
            r.1.leaves_seen() == self.folder.spec_base().leaves_seen(),
            (F::observing() && !self.folder.spec_base().fill_mode() && self.inv()
                && crate::tree::observer_coupled::<F>(
                self.folder.spec_base(),
                crate::tree::spine::<F>(range_leaf_hashes::<F>(self.ranges@)),
            )) ==> (match r.1.target_depth() {
                None => true,
                Some(tsi) => r.1.recorded_fold() == Some(
                    crate::tree::merkle_root::<F>(range_leaf_hashes::<F>(self.ranges@)),
                ),
            }),
            (F::observing() && !self.folder.spec_base().fill_mode()) ==> (r.1.target_depth() is Some <==> self.folder.spec_base().target_depth() is Some),
    {
        let mut this = self;
        let root = this.folder.result().unwrap();
        (root, this.folder.into_base())
    }

    /// The folder was finalised by `result`: the root stays available.
    pub open spec fn finalized(&self) -> bool {
        &&& self.folder.finalized()
        &&& self.folder.leaves() == range_leaf_hashes::<F>(self.ranges@)
    }
}

impl<F: TreeFold<Leaf = Vec<u8>>> RangeTarget for RangeTreeFolder<F> {
    open spec fn ranges(&self) -> Seq<(nat, nat)> {
        self.ranges@
    }

    open spec fn config(&self) -> Option<u32> {
        None
    }

    /// The folder mirrors the pushed ranges leaf for leaf.
    open spec fn inv(&self) -> bool {
        &&& self.folder.wf()
        &&& self.folder.leaves() == range_leaf_hashes::<F>(self.ranges@)
    }

    fn push_range(&mut self, left: u32, right: u32) -> (r: Result<(), Error>)
        ensures
            final(self).folder.spec_base().fill_mode() == old(self).folder.spec_base().fill_mode(),
            final(self).folder.spec_base().tracked_index() == old(self).folder.spec_base().tracked_index(),
            !old(self).folder.spec_base().fill_mode() ==> old(self).folder.spec_base().leaves_seen() <= final(self).folder.spec_base().leaves_seen()
                <= old(self).folder.spec_base().leaves_seen() + 1,
            (!old(self).folder.spec_base().fill_mode() && old(self).folder.spec_base().leaves_seen() < usize::MAX && old(self).folder.spec_base().tracked_index() == Some(
                old(self).folder.spec_base().leaves_seen(),
            )) ==> (final(self).folder.spec_base().recorded_leaf() == Some(
                F::leaf_hash(range_bytes(left, right)),
            ) && crate::tree::target_retired::<F>(final(self).folder.spec_base())),
            (!old(self).folder.spec_base().fill_mode() && old(self).folder.spec_base().tracked_index() != Some(
                old(self).folder.spec_base().leaves_seen(),
            )) ==> final(self).folder.spec_base().recorded_leaf() == old(self).folder.spec_base().recorded_leaf(),
            (!old(self).folder.spec_base().fill_mode() && crate::tree::target_retired::<F>(
                old(self).folder.spec_base(),
            )) ==> crate::tree::target_retired::<F>(final(self).folder.spec_base()),
            (F::observing() && !old(self).folder.spec_base().fill_mode()
                && crate::tree::observer_coupled::<F>(
                old(self).folder.spec_base(),
                crate::tree::spine::<F>(range_leaf_hashes::<F>(old(self).ranges@)),
            )) ==> crate::tree::observer_coupled::<F>(
                final(self).folder.spec_base(),
                crate::tree::spine::<F>(range_leaf_hashes::<F>(final(self).ranges@)),
            ),
            (F::observing() && !old(self).folder.spec_base().fill_mode() && old(self).folder.spec_base().target_depth() is Some) ==> final(self).folder.spec_base().target_depth() is Some,
            (F::observing() && !old(self).folder.spec_base().fill_mode() && old(self).folder.spec_base().target_depth() is None && old(self).folder.spec_base().tracked_index() != Some(old(self).folder.spec_base().leaves_seen())) ==> final(self).folder.spec_base().target_depth() is None,
            (F::observing() && !old(self).folder.spec_base().fill_mode() && old(self).folder.spec_base().leaves_seen() < usize::MAX && old(self).folder.spec_base().tracked_index() == Some(old(self).folder.spec_base().leaves_seen())) ==> final(self).folder.spec_base().target_depth() is Some,
    {
        let range = make_range(left, right);
        let leaf = slice_to_vec(range.as_slice());
        match self.folder.push(&leaf) {
            Ok(()) => {},
            Err(e) => {
                return Err(e);
            },
        }
        self.ranges = Ghost(self.ranges@.push((left as nat, right as nat)));
        proof {
            assert(self.folder.leaves() =~= range_leaf_hashes::<F>(self.ranges@));
        }
        Ok(())
    }
}

/// The last range of `rs` that strictly contains `idx`, if any: the one
/// the find tracker remembers.
pub open spec fn found_range_of(idx: u32, rs: Seq<(nat, nat)>) -> Option<(nat, nat)>
    decreases rs.len(),
{
    if rs.len() == 0 {
        None
    } else if rs.last().0 < idx && idx < rs.last().1 {
        Some(rs.last())
    } else {
        found_range_of(idx, rs.drop_last())
    }
}

/// What `found_range_of` finds: a range of the sequence that strictly
/// contains the index, and something exactly when one exists.
pub proof fn lemma_found_range_of(idx: u32, rs: Seq<(nat, nat)>)
    ensures
        found_range_of(idx, rs) is Some <==> exists|j: int|
            0 <= j < rs.len() && (#[trigger] rs[j]).0 < idx && idx < rs[j].1,
        found_range_of(idx, rs) matches Some(p) ==> rs.contains(p) && p.0 < idx && idx < p.1,
    decreases rs.len(),
{
    if rs.len() > 0 {
        lemma_found_range_of(idx, rs.drop_last());
        let p = rs.last();
        if p.0 < idx && idx < p.1 {
            assert(rs[rs.len() - 1] == p);
        } else {
            if found_range_of(idx, rs.drop_last()) is Some {
                let q = found_range_of(idx, rs.drop_last()).unwrap();
                assert(rs.drop_last().contains(q));
                let j = choose|j: int| 0 <= j < rs.drop_last().len() && rs.drop_last()[j] == q;
                assert(rs[j] == q);
            }
            if exists|j: int| 0 <= j < rs.len() && (#[trigger] rs[j]).0 < idx && idx < rs[j].1 {
                let j = choose|j: int|
                    0 <= j < rs.len() && (#[trigger] rs[j]).0 < idx && idx < rs[j].1;
                assert(j < rs.len() - 1);
                assert(rs.drop_last()[j] == rs[j]);
            }
        }
    }
}

/// Sentinel ranges contain no index, so padding cannot change the find.
pub proof fn lemma_found_range_sentinels(idx: u32, rs: Seq<(nat, nat)>, pad: nat)
    ensures
        found_range_of(idx, rs + Seq::new(pad, |i: int| sentinel_range())) == found_range_of(
            idx,
            rs,
        ),
    decreases pad,
{
    let padded = rs + Seq::new(pad, |i: int| sentinel_range());
    if pad == 0 {
        assert(padded =~= rs);
    } else {
        assert(padded.last() == sentinel_range());
        assert(!(padded.last().0 < idx));
        assert(padded.drop_last() =~= rs + Seq::new((pad - 1) as nat, |i: int| sentinel_range()));
        lemma_found_range_sentinels(idx, rs, (pad - 1) as nat);
    }
}

/// Ranges hashed with the tracker wrapped around a backend give the same
/// leaf hashes as the bare backend: the tracker only watches.
pub proof fn lemma_tracker_leaf_hashes<T: TreeFold<Leaf = Vec<u8>>>(rs: Seq<(nat, nat)>)
    ensures
        range_leaf_hashes::<PathTracker<T>>(rs) =~= range_leaf_hashes::<T>(rs),
{
}

/// A tree folder that also looks out for the range containing one index:
/// when a pushed range strictly contains `find_index`, the inner tracker
/// is pointed at that leaf and the range is remembered.
pub struct RangePathTracker<T: TreeFold<Leaf = Vec<u8>>> {
    pub folder: RangeTreeFolder<PathTracker<T>>,
    pub find_index: u32,
    pub range: Option<(u32, u32)>,
}

impl<T: TreeFold<Leaf = Vec<u8>>> RangePathTracker<T> {
    pub fn new(base: T, find_index: u32) -> (r: Self)
        ensures
            r.inv(),
            r.ranges() == Seq::<(nat, nat)>::empty(),
            r.find_index == find_index,
            r.range is None,
    {
        let r = RangePathTracker {
            folder: RangeTreeFolder::new(PathTracker::new(base, None)),
            find_index,
            range: None,
        };
        proof {
            assert(found_range_of(find_index, r.folder.ranges@) is None);
        }
        r
    }

    /// Pad the tree to the next power of two with sentinel ranges and
    /// return the number of leaves appended.
    pub fn fill(&mut self) -> (r: usize)
        requires
            old(self).inv(),
            old(self).ranges().len() <= usize::MAX / 2 + 1,
        ensures
            final(self).inv(),
            final(self).find_index == old(self).find_index,
            final(self).range == old(self).range,
            ({
                let n = old(self).ranges().len();
                let pad = (crate::arith::next_pow2(n) - n) as nat;
                &&& r == pad
                &&& final(self).ranges() == old(self).ranges() + Seq::new(
                    pad,
                    |i: int| sentinel_range(),
                )
            }),
            crate::arith::next_pow2(old(self).ranges().len()) == old(self).ranges().len()
                ==> *final(self) == *old(self),
    {
        let ghost rs0 = self.folder.ranges@;
        let count = self.folder.fill();
        proof {
            lemma_found_range_sentinels(self.find_index, rs0, count as nat);
        }
        count
    }

    /// The number of leaves so far, filled ones included.
    pub fn len(&self) -> (r: usize)
        requires
            self.inv(),
        ensures
            r == self.ranges().len(),
    {
        self.folder.len()
    }

    /// The remembered range, the recorded inclusion path, and the root.
    /// The path is present exactly when a range was found, and its leaf
    /// is that range's hash.
    pub fn result(self) -> (r: (Option<(u32, u32)>, Option<Path<T::Target>>, Option<T::Target>))
        requires
            self.inv(),
        ensures
            r.0 == self.range,
            match found_range_of(self.find_index, self.ranges()) {
                None => r.0 is None,
                Some(p) => (r.0 matches Some((l, rr)) && l as nat == p.0 && rr as nat == p.1),
            },
            r.1 is Some <==> r.0 is Some,
            r.1 matches Some(p) ==> (r.0 matches Some((l, rr)) && p.leaf@ == T::leaf_hash(
                range_bytes(l, rr),
            ) && spec_path_fold::<T>(p.leaf@, p.join@) == crate::tree::merkle_root::<T>(
                range_leaf_hashes::<T>(self.ranges()),
            )),
            self.ranges().len() == 0 ==> r.2 is None,
            self.ranges().len() >= 1 ==> (r.2 matches Some(root) && root@
                == crate::tree::merkle_root::<T>(range_leaf_hashes::<T>(self.ranges()))),
    {
        proof {
            lemma_tracker_leaf_hashes::<T>(self.ranges());
            crate::tree::lemma_backend_root_agree::<PathTracker<T>, T>(
                range_leaf_hashes::<T>(self.ranges()),
            );
        }
        let RangePathTracker { folder, range, .. } = self;
        let (root, tracker) = folder.complete();
        let found_path = tracker.path_result();
        proof {
            match tracker.path {
                None => {},
                Some(q) => {
                    // the recorded fold value is exactly what folding the
                    // copied path computes
                    crate::path::lemma_path_fold_is_chain::<T>(q.leaf@, q.join@);
                },
            }
        }
        (range, found_path, root)
    }
}

impl<T: TreeFold<Leaf = Vec<u8>>> RangeTarget for RangePathTracker<T> {
    open spec fn ranges(&self) -> Seq<(nat, nat)> {
        self.folder.ranges@
    }

    open spec fn config(&self) -> Option<u32> {
        Some(self.find_index)
    }

    /// Besides the folder's own invariant: the remembered range is
    /// exactly the last pushed range strictly containing `find_index`,
    /// and the inner tracker's observation mirrors it — no fill window is
    /// open, every tracked index has been consumed, at most one leaf per
    /// pushed range has been seen, and the recorded leaf is the found
    /// range's hash, or absent along with the range.
    open spec fn inv(&self) -> bool {
        &&& self.folder.inv()
        &&& match found_range_of(self.find_index, self.folder.ranges@) {
            None => self.range is None,
            Some(p) => (self.range matches Some((l, r)) && l as nat == p.0 && r as nat == p.1),
        }
        &&& !self.folder.folder.spec_base().fill_mode()
        &&& self.folder.folder.spec_base().leaves_seen() <= self.folder.ranges@.len()
        &&& crate::tree::target_retired::<PathTracker<T>>(self.folder.folder.spec_base())
        &&& match self.range {
            None => self.folder.folder.spec_base().recorded_leaf() is None,
            Some((l, r)) => self.folder.folder.spec_base().recorded_leaf() == Some(
                T::leaf_hash(range_bytes(l, r)),
            ),
        }
        &&& (self.folder.folder.spec_base().target_depth() is Some <==> self.range is Some)
        &&& crate::tree::observer_coupled::<PathTracker<T>>(
            self.folder.folder.spec_base(),
            crate::tree::spine::<PathTracker<T>>(
                range_leaf_hashes::<PathTracker<T>>(self.folder.ranges@),
            ),
        )
    }

    fn push_range(&mut self, left: u32, right: u32) -> (r: Result<(), Error>)
        ensures
            final(self).find_index == old(self).find_index,
            old(self).find_index > left && old(self).find_index < right ==> final(self).range
                == Some((left, right)),
            !(old(self).find_index > left && old(self).find_index < right) ==> final(self).range
                == old(self).range,
    {
        let ghost rs0 = self.folder.ranges@;
        if self.find_index > left && self.find_index < right {
            self.folder.folder.base_mut().track_next();
            self.range = Some((left, right));
        }
        let r = self.folder.push_range(left, right);
        proof {
            let rs = self.folder.ranges@;
            assert(rs.drop_last() =~= rs0);
            assert(rs.last() == (left as nat, right as nat));
        }
        r
    }
}

/// A target that only records the ranges pushed into it.
pub struct RangeCollect {
    pub result: Vec<(u32, u32)>,
}

impl RangeCollect {
    pub fn new() -> (r: Self)
        ensures
            r.inv(),
            r.ranges() == Seq::<(nat, nat)>::empty(),
    {
        let r = RangeCollect { result: Vec::new() };
        proof {
            assert(r.ranges() =~= Seq::<(nat, nat)>::empty());
        }
        r
    }
}

impl RangeTarget for RangeCollect {
    open spec fn ranges(&self) -> Seq<(nat, nat)> {
        Seq::new(self.result@.len(), |i: int| (self.result@[i].0 as nat, self.result@[i].1 as nat))
    }

    open spec fn config(&self) -> Option<u32> {
        None
    }

    open spec fn inv(&self) -> bool {
        true
    }

    fn push_range(&mut self, left: u32, right: u32) -> (r: Result<(), Error>) {
        self.result.push((left, right));
        proof {
            assert(self.ranges() =~= old(self).ranges().push((left as nat, right as nat)));
        }
        Ok(())
    }
}

/// One call into the parser: a bit value and how many successive bits it
/// stands for.
///
/// The parser state after a sequence of calls: `left` is the index of the
/// revocation boundary the next range will start at, `in_rev` says whether
/// the last bit seen was revoked, and `idx` is the 1-based index of the
/// next bit.  A batched call moves `left` at most once, to the index of
/// its first bit; this is the commitment format the front-end's uniform
/// 64-bit fast path produces.
pub open spec fn parse_state(calls: Seq<(bool, nat)>) -> (nat, bool, nat)
    decreases calls.len(),
{
    if calls.len() == 0 {
        (0, false, 1)
    } else {
        let st = parse_state(calls.drop_last());
        let c = calls.last();
        if c.0 {
            (st.2, true, st.2 + c.1)
        } else {
            (st.0, false, st.2 + c.1)
        }
    }
}

/// The ranges the parser emits over a sequence of calls: one per edge
/// from non-revoked to revoked, from the previous boundary to the index
/// of the revoking bit.
pub open spec fn parse_emitted(calls: Seq<(bool, nat)>) -> Seq<(nat, nat)>
    decreases calls.len(),
{
    if calls.len() == 0 {
        Seq::empty()
    } else {
        let st = parse_state(calls.drop_last());
        let e = parse_emitted(calls.drop_last());
        let c = calls.last();
        if c.0 && !st.1 {
            e.push((st.0, st.2))
        } else {
            e
        }
    }
}

/// Everything the parser hands to its target over a whole run: the
/// emitted ranges and the closing tail range up to `u32::MAX`.
pub open spec fn parse_ranges(calls: Seq<(bool, nat)>) -> Seq<(nat, nat)> {
    parse_emitted(calls).push((parse_state(calls).0, u32::MAX as nat))
}

/// The number of bits a call sequence covers.
pub open spec fn calls_total(calls: Seq<(bool, nat)>) -> nat
    decreases calls.len(),
{
    if calls.len() == 0 {
        0
    } else {
        calls_total(calls.drop_last()) + calls.last().1
    }
}

/// The bit index is one past the bits covered so far.
pub proof fn lemma_parse_state_idx(calls: Seq<(bool, nat)>)
    ensures
        parse_state(calls).2 == 1 + calls_total(calls),
    decreases calls.len(),
{
    if calls.len() > 0 {
        lemma_parse_state_idx(calls.drop_last());
    }
}

/// The covered bits add up over concatenation.
pub proof fn lemma_calls_total_concat(a: Seq<(bool, nat)>, b: Seq<(bool, nat)>)
    ensures
        calls_total(a + b) == calls_total(a) + calls_total(b),
    decreases b.len(),
{
    if b.len() == 0 {
        assert(a + b =~= a);
    } else {
        assert((a + b).drop_last() =~= a + b.drop_last());
        assert((a + b).last() == b.last());
        lemma_calls_total_concat(a, b.drop_last());
    }
}

/// One call per bit covers exactly the bits.
pub proof fn lemma_per_bit_total(bits: Seq<bool>)
    ensures
        calls_total(per_bit_calls(bits)) == bits.len(),
    decreases bits.len(),
{
    if bits.len() > 0 {
        assert(per_bit_calls(bits).drop_last() =~= per_bit_calls(bits.drop_last()));
        lemma_per_bit_total(bits.drop_last());
    }
}

/// Counting calls whose count is at least one: the bit index grows at
/// least as fast as the emission count, and the boundary stays behind
/// the index.
pub proof fn lemma_parse_counts(calls: Seq<(bool, nat)>)
    requires
        forall|i: int| 0 <= i < calls.len() ==> (#[trigger] calls[i]).1 >= 1,
    ensures
        parse_state(calls).2 >= 1 + parse_emitted(calls).len(),
        parse_state(calls).0 < parse_state(calls).2,
    decreases calls.len(),
{
    if calls.len() > 0 {
        assert(calls[calls.len() - 1].1 >= 1);
        lemma_parse_counts(calls.drop_last());
    }
}

/// Whatever mix of batched and single-bit calls the parser consumes, the
/// ranges it emits are strict and in strictly increasing position, and
/// they all end at or before the current boundary.
pub proof fn lemma_parse_sorted(calls: Seq<(bool, nat)>)
    requires
        forall|i: int| 0 <= i < calls.len() ==> (#[trigger] calls[i]).1 >= 1,
    ensures
        ({
            let st = parse_state(calls);
            let e = parse_emitted(calls);
            &&& forall|i: int| 0 <= i < e.len() ==> (#[trigger] e[i]).0 < e[i].1
            &&& forall|i: int|
                0 <= i < e.len() - 1 ==> (#[trigger] e[i]).1 <= e[i + 1].0
            &&& forall|i: int| 0 <= i < e.len() ==> (#[trigger] e[i]).1 <= st.0
            &&& st.0 < st.2
        }),
    decreases calls.len(),
{
    lemma_parse_counts(calls);
    if calls.len() > 0 {
        let prev = calls.drop_last();
        assert(forall|i: int| 0 <= i < prev.len() ==> (#[trigger] prev[i]).1 >= 1) by {
            assert(forall|i: int|
                0 <= i < prev.len() ==> #[trigger] prev[i] == calls[i] && calls[i].1 >= 1);
        }
        lemma_parse_sorted(prev);
        lemma_parse_counts(prev);
        let st0 = parse_state(prev);
        let e0 = parse_emitted(prev);
        let c = calls.last();
        assert(c.1 >= 1);
        let st = parse_state(calls);
        let e = parse_emitted(calls);
        if c.0 && !st0.1 {
            assert(e == e0.push((st0.0, st0.2)));
            assert(st.0 == st0.2);
            assert forall|i: int| 0 <= i < e.len() implies (#[trigger] e[i]).0 < e[i].1 by {
                if i < e0.len() {
                    assert(e[i] == e0[i]);
                }
            }
            assert forall|i: int| 0 <= i < e.len() - 1 implies (#[trigger] e[i]).1 <= e[i
                + 1].0 by {
                if i < e0.len() - 1 {
                    assert(e[i] == e0[i] && e[i + 1] == e0[i + 1]);
                } else {
                    assert(i == e0.len() - 1);
                    assert(e[i] == e0[i]);
                    assert(e0[i].1 <= st0.0);
                }
            }
            assert forall|i: int| 0 <= i < e.len() implies (#[trigger] e[i]).1 <= st.0 by {
                if i < e0.len() {
                    assert(e[i] == e0[i]);
                    assert(e0[i].1 <= st0.0);
                }
            }
        } else {
            assert(e == e0);
            assert(st.0 == st0.0 || st.0 == st0.2);
            assert forall|i: int| 0 <= i < e.len() implies (#[trigger] e[i]).1 <= st.0 by {
                assert(e0[i].1 <= st0.0);
            }
        }
    }
}

/// Over a whole run, the closing tail range included: at least one range
/// comes out, the last one ends at `u32::MAX`, every range is strict, and
/// they never overlap.
pub proof fn lemma_ranges_sorted(calls: Seq<(bool, nat)>)
    requires
        forall|i: int| 0 <= i < calls.len() ==> (#[trigger] calls[i]).1 >= 1,
        parse_state(calls).2 <= u32::MAX,
    ensures
        ({
            let rs = parse_ranges(calls);
            &&& rs.len() >= 1
            &&& rs[rs.len() - 1].1 == u32::MAX
            &&& forall|i: int| 0 <= i < rs.len() ==> (#[trigger] rs[i]).0 < rs[i].1
            &&& forall|i: int|
                0 <= i < rs.len() - 1 ==> (#[trigger] rs[i]).1 <= rs[i + 1].0
        }),
{
    lemma_parse_sorted(calls);
    let st = parse_state(calls);
    let e = parse_emitted(calls);
    let rs = parse_ranges(calls);
    assert(rs == e.push((st.0, u32::MAX as nat)));
    assert(rs[rs.len() - 1] == (st.0, u32::MAX as nat));
    assert(st.0 < st.2 <= u32::MAX);
    assert forall|i: int| 0 <= i < rs.len() implies (#[trigger] rs[i]).0 < rs[i].1 by {
        if i < e.len() {
            assert(rs[i] == e[i]);
        }
    }
    assert forall|i: int| 0 <= i < rs.len() - 1 implies (#[trigger] rs[i]).1 <= rs[i + 1].0 by {
        if i < e.len() - 1 {
            assert(rs[i] == e[i] && rs[i + 1] == e[i + 1]);
        } else {
            assert(i == e.len() - 1);
            assert(rs[i] == e[i]);
            assert(e[i].1 <= st.0);
        }
    }
}

/// The 1-based index of the last revoked bit, or 0 if none is revoked.
pub open spec fn last_revoked(bits: Seq<bool>) -> nat
    decreases bits.len(),
{
    if bits.len() == 0 {
        0
    } else if bits.last() {
        bits.len()
    } else {
        last_revoked(bits.drop_last())
    }
}

/// One parser call per single bit.
pub open spec fn per_bit_calls(bits: Seq<bool>) -> Seq<(bool, nat)> {
    Seq::new(bits.len(), |i: int| (bits[i], 1nat))
}

/// Index `k` lies strictly inside an emitted range, or past the last
/// revocation boundary (where the closing tail range will cover it).
pub open spec fn covered(e: Seq<(nat, nat)>, boundary: nat, k: nat) -> bool {
    (exists|i: int| 0 <= i < e.len() && (#[trigger] e[i]).0 < k < e[i].1) || boundary < k
}

/// What a bit-by-bit run leaves in the parser: the boundary is the last
/// revoked index, the emitted ranges are strictly ordered below it, and
/// together with everything past it they cover exactly the non-revoked
/// indices.
pub proof fn lemma_single_bit_parse(bits: Seq<bool>)
    ensures
        ({
            let st = parse_state(per_bit_calls(bits));
            let e = parse_emitted(per_bit_calls(bits));
            &&& st.2 == bits.len() + 1
            &&& st.0 == last_revoked(bits)
            &&& st.1 == (bits.len() > 0 && bits.last())
            &&& last_revoked(bits) <= bits.len()
            &&& forall|i: int| 0 <= i < e.len() ==> (#[trigger] e[i]).0 < e[i].1
            &&& forall|i: int|
                0 <= i < e.len() - 1 ==> (#[trigger] e[i]).1 <= e[i + 1].0
            &&& (e.len() >= 1 ==> e[e.len() - 1].1 <= last_revoked(bits))
            &&& forall|i: int| 0 <= i < e.len() ==> (#[trigger] e[i]).1 <= bits.len()
            &&& forall|k: nat|
                1 <= k <= bits.len() ==> ((!bits[k - 1]) <==> #[trigger] covered(
                    e,
                    last_revoked(bits),
                    k,
                ))
        }),
    decreases bits.len(),
{
    if bits.len() == 0 {
        assert(per_bit_calls(bits) =~= Seq::<(bool, nat)>::empty());
    } else {
        let prev = bits.drop_last();
        lemma_single_bit_parse(prev);
        let n = prev.len();
        let b = bits.last();
        let calls = per_bit_calls(bits);
        assert(calls.drop_last() =~= per_bit_calls(prev));
        assert(calls.last() == (b, 1nat));
        let st0 = parse_state(per_bit_calls(prev));
        let e0 = parse_emitted(per_bit_calls(prev));
        let l0 = st0.0;
        let st = parse_state(calls);
        let e = parse_emitted(calls);
        let lr0 = last_revoked(prev);
        let lr = last_revoked(bits);
        assert(l0 == lr0);
        if b {
            assert(lr == n + 1);
            assert(st.0 == n + 1 && st.1 == true && st.2 == n + 2);
            if !st0.1 {
                // the edge into a revoked run: the pending range is emitted
                assert(e == e0.push((l0, (n + 1) as nat)));
                assert(e[e.len() - 1] == (l0, (n + 1) as nat));
                assert forall|i: int| 0 <= i < e.len() implies (#[trigger] e[i]).0 < e[i].1 by {
                    if i < e0.len() {
                        assert(e[i] == e0[i]);
                    }
                }
                assert forall|i: int| 0 <= i < e.len() - 1 implies (#[trigger] e[i]).1 <= e[i
                    + 1].0 by {
                    if i < e0.len() - 1 {
                        assert(e[i] == e0[i] && e[i + 1] == e0[i + 1]);
                    } else {
                        assert(i == e0.len() - 1);
                        assert(e[i] == e0[i]);
                        assert(e0[e0.len() - 1].1 <= lr0);
                    }
                }
                assert forall|k: nat| 1 <= k <= bits.len() implies ((!bits[k - 1])
                    <==> #[trigger] covered(e, lr, k)) by {
                    if k <= n {
                        assert(bits[k - 1] == prev[k - 1]);
                        assert((!prev[k - 1]) <==> covered(e0, lr0, k));
                        if covered(e0, lr0, k) {
                            if exists|i: int|
                                0 <= i < e0.len() && (#[trigger] e0[i]).0 < k < e0[i].1 {
                                let i = choose|i: int|
                                    0 <= i < e0.len() && (#[trigger] e0[i]).0 < k < e0[i].1;
                                assert(e[i] == e0[i]);
                                assert(covered(e, lr, k));
                            } else {
                                assert(lr0 < k);
                                assert(e[e.len() - 1].0 < k < e[e.len() - 1].1);
                                assert(covered(e, lr, k));
                            }
                        }
                        if covered(e, lr, k) {
                            assert(!(lr < k));
                            let i = choose|i: int|
                                0 <= i < e.len() && (#[trigger] e[i]).0 < k < e[i].1;
                            if i < e0.len() {
                                assert(e0[i] == e[i]);
                                assert(covered(e0, lr0, k));
                            } else {
                                assert(e[i] == (l0, (n + 1) as nat));
                                assert(lr0 < k);
                                assert(covered(e0, lr0, k));
                            }
                        }
                    } else {
                        // the new bit itself is revoked and not covered
                        assert(k == n + 1);
                        assert(bits[k - 1] == b);
                        assert(!(lr < k));
                        if covered(e, lr, k) {
                            let i = choose|i: int|
                                0 <= i < e.len() && (#[trigger] e[i]).0 < k < e[i].1;
                            if i < e0.len() {
                                assert(e[i] == e0[i]);
                                assert(e0[i].1 <= n);
                                assert(false);
                            } else {
                                assert(e[i].1 == n + 1);
                                assert(false);
                            }
                        }
                    }
                }
            } else {
                // a revoked run continues: only the boundary moves
                assert(e == e0);
                assert(prev.len() > 0 && prev.last());
                assert(lr0 == n);
                assert forall|k: nat| 1 <= k <= bits.len() implies ((!bits[k - 1])
                    <==> #[trigger] covered(e, lr, k)) by {
                    if k <= n {
                        assert(bits[k - 1] == prev[k - 1]);
                        assert((!prev[k - 1]) <==> covered(e0, lr0, k));
                        assert((lr0 < k) == false);
                        assert((lr < k) == false);
                        assert(covered(e0, lr0, k) == covered(e, lr, k));
                    } else {
                        assert(k == n + 1);
                        assert(bits[k - 1] == b);
                        assert(!(lr < k));
                        if covered(e, lr, k) {
                            let i = choose|i: int|
                                0 <= i < e.len() && (#[trigger] e[i]).0 < k < e[i].1;
                            assert(e0[i].1 <= n);
                            assert(false);
                        }
                    }
                }
            }
        } else {
            // an active bit: nothing is emitted, the boundary stays
            assert(e == e0);
            assert(lr == lr0);
            assert(st.0 == l0 && st.1 == false && st.2 == n + 2);
            assert forall|k: nat| 1 <= k <= bits.len() implies ((!bits[k - 1])
                <==> #[trigger] covered(e, lr, k)) by {
                if k <= n {
                    assert(bits[k - 1] == prev[k - 1]);
                    assert((!prev[k - 1]) <==> covered(e0, lr0, k));
                } else {
                    assert(k == n + 1);
                    assert(bits[k - 1] == b);
                    assert(lr < k);
                    assert(covered(e, lr, k));
                }
            }
        }
    }
}

/// Range coverage: over a bit-by-bit stream, the ranges the parser hands
/// to its target are strictly increasing and non-overlapping, the last
/// one ends at `u32::MAX`, and an index of the stream lies strictly
/// inside one of them exactly when its bit is not revoked.
pub proof fn lemma_range_coverage(bits: Seq<bool>)
    requires
        bits.len() < u32::MAX,
    ensures
        ({
            let rs = parse_ranges(per_bit_calls(bits));
            &&& rs.len() >= 1
            &&& rs[rs.len() - 1].1 == u32::MAX
            &&& forall|i: int| 0 <= i < rs.len() ==> (#[trigger] rs[i]).0 < rs[i].1
            &&& forall|i: int|
                0 <= i < rs.len() - 1 ==> (#[trigger] rs[i]).1 <= rs[i + 1].0
            &&& forall|j: int|
                #![trigger bits[j]]
                0 <= j < bits.len() ==> ((!bits[j]) <==> exists|i: int|
                    0 <= i < rs.len() && (#[trigger] rs[i]).0 < j + 1 < rs[i].1)
        }),
{
    lemma_single_bit_parse(bits);
    let st = parse_state(per_bit_calls(bits));
    let e = parse_emitted(per_bit_calls(bits));
    let lr = last_revoked(bits);
    let rs = parse_ranges(per_bit_calls(bits));
    assert(rs == e.push((lr, u32::MAX as nat)));
    assert(rs[rs.len() - 1] == (lr, u32::MAX as nat));
    assert(lr <= bits.len() < u32::MAX);
    assert forall|i: int| 0 <= i < rs.len() implies (#[trigger] rs[i]).0 < rs[i].1 by {
        if i < e.len() {
            assert(rs[i] == e[i]);
        }
    }
    assert forall|i: int| 0 <= i < rs.len() - 1 implies (#[trigger] rs[i]).1 <= rs[i + 1].0 by {
        if i < e.len() - 1 {
            assert(rs[i] == e[i] && rs[i + 1] == e[i + 1]);
        } else {
            assert(i == e.len() - 1);
            assert(rs[i] == e[i]);
            assert(e[e.len() - 1].1 <= lr);
        }
    }
    assert forall|j: int| 0 <= j < bits.len() implies ((!bits[j]) <==> exists|i: int|
        0 <= i < rs.len() && (#[trigger] rs[i]).0 < j + 1 < rs[i].1) by {
        let k = (j + 1) as nat;
        assert((!bits[k - 1]) <==> covered(e, lr, k));
        if covered(e, lr, k) {
            if exists|i: int| 0 <= i < e.len() && (#[trigger] e[i]).0 < k < e[i].1 {
                let i = choose|i: int| 0 <= i < e.len() && (#[trigger] e[i]).0 < k < e[i].1;
                assert(rs[i] == e[i]);
                assert(rs[i].0 < k < rs[i].1);
            } else {
                assert(lr < k);
                assert(k <= bits.len() < u32::MAX);
                assert(rs[rs.len() - 1].0 < k < rs[rs.len() - 1].1);
            }
        }
        if exists|i: int| 0 <= i < rs.len() && (#[trigger] rs[i]).0 < k < rs[i].1 {
            let i = choose|i: int| 0 <= i < rs.len() && (#[trigger] rs[i]).0 < k < rs[i].1;
            if i < e.len() {
                assert(e[i] == rs[i]);
                assert(covered(e, lr, k));
            } else {
                assert(rs[i] == (lr, u32::MAX as nat));
                assert(lr < k);
                assert(covered(e, lr, k));
            }
        }
    }
}

/// The streaming decoder from bits to ranges: it feeds one range per
/// maximal revoked run to its target, and `complete` closes the space
/// with the tail range.
pub struct RangeParser<T: RangeTarget> {
    pub left: u32,
    pub in_rev: bool,
    pub bit_idx: u32,
    pub target: T,
    pub calls: Ghost<Seq<(bool, nat)>>,
}

impl<T: RangeTarget> RangeParser<T> {
    /// The parser fields mirror the call history, and the target has
    /// received exactly the emitted ranges.
    pub open spec fn wf(&self) -> bool {
        let st = parse_state(self.calls@);
        &&& self.left == st.0
        &&& self.in_rev == st.1
        &&& self.bit_idx == st.2
        &&& self.target.inv()
        &&& self.target.ranges() == parse_emitted(self.calls@)
        &&& forall|i: int| 0 <= i < self.calls@.len() ==> (#[trigger] self.calls@[i]).1 >= 1
    }

    pub fn new(target: T) -> (r: Self)
        requires
            target.inv(),
            target.ranges() == Seq::<(nat, nat)>::empty(),
        ensures
            r.wf(),
            r.calls@ == Seq::<(bool, nat)>::empty(),
            r.target == target,
    {
        RangeParser { left: 0, in_rev: false, bit_idx: 1, target, calls: Ghost(Seq::empty()) }
    }

    /// Consume `count` copies of one bit value.  On the edge into a
    /// revoked run the pending range is pushed to the target.
    pub fn process_bits(&mut self, revoked: bool, count: u32) -> (r: Result<(), Error>)
        requires
            old(self).wf(),
            count >= 1,
            old(self).bit_idx + count <= 0x8000_0000,
        ensures
            r is Ok,
            final(self).wf(),
            final(self).calls@ == old(self).calls@.push((revoked, count as nat)),
            final(self).target.ranges() == parse_emitted(final(self).calls@),
            final(self).target.config() == old(self).target.config(),
            final(self).bit_idx == old(self).bit_idx + count,
    {
        let ghost c0 = self.calls@;
        proof {
            lemma_parse_counts(c0);
        }
        if revoked {
            if !self.in_rev {
                match self.target.push_range(self.left, self.bit_idx) {
                    Ok(()) => {},
                    Err(e) => {
                        return Err(e);
                    },
                }
                self.in_rev = true;
            }
            self.left = self.bit_idx;
        } else {
            self.in_rev = false;
        }
        self.bit_idx = self.bit_idx + count;
        self.calls = Ghost(c0.push((revoked, count as nat)));
        proof {
            assert(self.calls@.drop_last() =~= c0);
            assert(self.calls@.last() == (revoked, count as nat));
        }
        Ok(())
    }

    /// Close the index space: push the final range from the last boundary
    /// to `u32::MAX` and hand the target back.
    pub fn complete(self) -> (r: Result<T, Error>)
        requires
            self.wf(),
            self.bit_idx <= 0x8000_0000,
        ensures
            r matches Ok(t) && t.inv() && t.ranges() == parse_ranges(self.calls@) && t.config()
                == self.target.config(),
            parse_ranges(self.calls@).len() <= 0x8000_0000,
    {
        proof {
            lemma_parse_counts(self.calls@);
        }
        let mut target = self.target;
        match target.push_range(self.left, u32::MAX) {
            Ok(()) => {},
            Err(e) => {
                return Err(e);
            },
        }
        Ok(target)
    }
}

} // verus!
