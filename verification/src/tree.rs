//! The online Merkle tree folder.
//!
//! Leaves arrive one at a time; the folder keeps only the right spine of
//! the partial tree: one perfect-subtree root per set bit of the leaf
//! count, ordered by decreasing height.  `fill` pads the tree to the next
//! power of two with copies of a sentinel leaf in `O(log n)` hash calls,
//! and `result` folds the spine into the root.

use vstd::prelude::*;
use vstd::arithmetic::power2::*;
use crate::arith::{
    popcount, tz, next_pow2, next_pow2_exp, lemma_popcount_pos, lemma_next_pow2_is_pow2,
    lemma_next_pow2_least, lemma_tz_mul_pow2, lemma_tz_of_multiple, lemma_mod_pow2_step,
    lemma_mod_pow2_small, lemma_popcount_pow2, lemma_pow2_gt_exp, pow2_floor, pow2_floor_exp,
    lemma_pow2_floor,
};
use crate::error::Error;

verus! {

/// A two-input collision-resistant hash backend.
///
/// `input` lifts a leaf into a hash value and `fold` combines an ordered
/// pair of hash values into their parent.  Both are given by the spec
/// functions `leaf_hash` and `node_hash` over the views of the values, so
/// a backend must be deterministic.  The supplied backends never fail, and
/// the contract requires the same of every implementation; the `Result` in
/// the signatures is kept for extensibility of the API.
///
/// `start_fill` and `end_fill` bracket the synthetic hash calls made while
/// padding the tree, so that a decorating backend (the path tracker) can
/// tell synthetic operations from real ones.  The observation spec
/// functions at the end expose what such a decorator keeps — whether a
/// fill window is open, the leaf hash and running fold value of its
/// record, the index it waits for, its depth counter, and how many real
/// leaves it has seen — so the folder's contracts can carry a
/// decorator's observations through a whole build.  A plain backend
/// observes nothing and only tracks the window flag; the exact depth and
/// record clauses bind observers alone (`observing`).
pub trait TreeFold: Sized {
    type Leaf: View;

    type Target: View + Clone;

    /// The hash value a leaf is mapped to, over the leaf's view.
    spec fn leaf_hash(leaf: <Self::Leaf as View>::V) -> <Self::Target as View>::V;

    /// The hash value of a parent, from the ordered pair of its children.
    spec fn node_hash(
        a: <Self::Target as View>::V,
        b: <Self::Target as View>::V,
    ) -> <Self::Target as View>::V;

    fn input(&mut self, leaf: &Self::Leaf) -> (r: Result<Self::Target, Error>)
        ensures
            r matches Ok(h) && h@ == Self::leaf_hash(leaf@),
            final(self).fill_mode() == old(self).fill_mode(),
            final(self).tracked_index() == old(self).tracked_index(),
            old(self).fill_mode() ==> (final(self).leaves_seen() == old(self).leaves_seen()
                && final(self).recorded_leaf() == old(self).recorded_leaf()),
            !old(self).fill_mode() ==> old(self).leaves_seen() <= final(self).leaves_seen()
                <= old(self).leaves_seen() + 1,
            (!old(self).fill_mode() && old(self).leaves_seen() < usize::MAX && old(self).tracked_index() == Some(old(self).leaves_seen())) ==> (final(self).recorded_leaf()
                == Some(Self::leaf_hash(leaf@)) && (match final(self).tracked_index() {
                Some(t) => t < final(self).leaves_seen(),
                None => true,
            })),
            (!old(self).fill_mode() && old(self).tracked_index() != Some(old(self).leaves_seen()))
                ==> final(self).recorded_leaf() == old(self).recorded_leaf(),
            (!old(self).fill_mode() && (match old(self).tracked_index() {
                Some(t) => t < old(self).leaves_seen(),
                None => true,
            })) ==> (match final(self).tracked_index() {
                Some(t) => t < final(self).leaves_seen(),
                None => true,
            }),
            (Self::observing() && old(self).fill_mode()) ==> (final(self).depth() == old(self).depth() && final(self).target_depth() == old(self).target_depth() && final(self).recorded_fold() == old(self).recorded_fold()),
            (Self::observing() && !old(self).fill_mode() && old(self).depth() < usize::MAX)
                ==> final(self).depth() == old(self).depth() + 1,
            (Self::observing() && !old(self).fill_mode() && old(self).tracked_index() == Some(
                old(self).leaves_seen(),
            )) ==> (final(self).target_depth() == Some(final(self).depth()) && final(self).recorded_fold() == Some(Self::leaf_hash(leaf@))),
            (Self::observing() && !old(self).fill_mode() && old(self).tracked_index() != Some(
                old(self).leaves_seen(),
            )) ==> (final(self).target_depth() == old(self).target_depth() && final(self).recorded_fold() == old(self).recorded_fold()),
    ;

    fn fold(&mut self, a: &Self::Target, b: &Self::Target) -> (r: Result<Self::Target, Error>)
        ensures
            r matches Ok(h) && h@ == Self::node_hash(a@, b@),
            final(self).fill_mode() == old(self).fill_mode(),
            final(self).tracked_index() == old(self).tracked_index(),
            final(self).leaves_seen() == old(self).leaves_seen(),
            final(self).recorded_leaf() == old(self).recorded_leaf(),
            (Self::observing() && old(self).fill_mode()) ==> (final(self).depth() == old(self).depth() && final(self).target_depth() == old(self).target_depth() && final(self).recorded_fold() == old(self).recorded_fold()),
            (Self::observing() && !old(self).fill_mode()) ==> final(self).depth() == (if old(self).depth() >= 1 {
                (old(self).depth() - 1) as nat
            } else {
                0
            }),
            (Self::observing() && !old(self).fill_mode()) ==> (match old(self).target_depth() {
                Some(tsi) => {
                    if tsi == old(self).depth() {
                        &&& final(self).target_depth() == Some(
                            (if tsi >= 1 {
                                (tsi - 1) as nat
                            } else {
                                0
                            }),
                        )
                        &&& (old(self).recorded_fold() matches Some(v) ==> final(self).recorded_fold() == Some(Self::node_hash(a@, v)))
                        &&& (old(self).recorded_fold() is None ==> final(self).recorded_fold()
                            is None)
                    } else if old(self).depth() >= 1 && tsi == old(self).depth() - 1 {
                        &&& final(self).target_depth() == old(self).target_depth()
                        &&& (old(self).recorded_fold() matches Some(v) ==> final(self).recorded_fold() == Some(Self::node_hash(v, b@)))
                        &&& (old(self).recorded_fold() is None ==> final(self).recorded_fold()
                            is None)
                    } else {
                        &&& final(self).target_depth() == old(self).target_depth()
                        &&& final(self).recorded_fold() == old(self).recorded_fold()
                    }
                },
                None => {
                    &&& final(self).target_depth() == old(self).target_depth()
                    &&& final(self).recorded_fold() == old(self).recorded_fold()
                },
            }),
    ;

    /// Duplicate a hash value.  The folder needs copies of cached hashes,
    /// and only the backend knows that its target type copies faithfully.
    fn dup(t: &Self::Target) -> (r: Self::Target)
        ensures
            r@ == t@,
    ;

    fn start_fill(&mut self)
        ensures
            final(self).fill_mode(),
            final(self).recorded_leaf() == old(self).recorded_leaf(),
            final(self).tracked_index() == old(self).tracked_index(),
            final(self).leaves_seen() == old(self).leaves_seen(),
            Self::observing() ==> (final(self).depth() == old(self).depth() && final(self).target_depth() == old(self).target_depth() && final(self).recorded_fold() == old(self).recorded_fold()),
    ;

    fn end_fill(&mut self)
        ensures
            !final(self).fill_mode(),
            final(self).recorded_leaf() == old(self).recorded_leaf(),
            final(self).tracked_index() == old(self).tracked_index(),
            final(self).leaves_seen() == old(self).leaves_seen(),
            (Self::observing() && old(self).depth() < usize::MAX) ==> final(self).depth() == old(self).depth() + 1,
            Self::observing() ==> (final(self).target_depth() == old(self).target_depth()
                && final(self).recorded_fold() == old(self).recorded_fold()),
    ;

    /// Whether the backend is inside a fill window, where calls are
    /// synthetic.  A plain backend reports `false`.
    spec fn fill_mode(&self) -> bool;

    /// The leaf hash of the backend's current observation record, if it
    /// keeps one; a plain backend keeps none.
    spec fn recorded_leaf(&self) -> Option<<Self::Target as View>::V>;

    /// The index of the leaf the backend is waiting to observe, if any.
    spec fn tracked_index(&self) -> Option<nat>;

    /// How many real (non-fill) leaves the backend has seen.
    spec fn leaves_seen(&self) -> nat;

    /// Whether this backend observes at all.  The exact depth clauses of
    /// `input` and `fold` hold only of observers; a plain backend says
    /// `false` and carries no counters.
    spec fn observing() -> bool;

    /// The stack depth the backend believes, counting the value in
    /// flight during a merge.
    spec fn depth(&self) -> nat;

    /// Once the observed leaf has been hashed, the depth at which the
    /// next fold involves the evolving record.
    spec fn target_depth(&self) -> Option<nat>;

    /// What the record folds to so far: the recorded leaf folded with
    /// every recorded sibling in order.
    spec fn recorded_fold(&self) -> Option<<Self::Target as View>::V>;
}

/// The view of a hash value of backend `T`.
pub type HashOf<T> = <<T as TreeFold>::Target as View>::V;

/// One level up: adjacent pairs hashed into their parents.
pub open spec fn pair_up<T: TreeFold>(l: Seq<HashOf<T>>) -> Seq<HashOf<T>> {
    Seq::new(l.len() / 2, |i: int| T::node_hash(l[2 * i], l[2 * i + 1]))
}

/// The stack of perfect-subtree roots left by pushing the leaf hashes `l`
/// in order: one entry per set bit of `l.len()`, deepest first.
pub open spec fn spine<T: TreeFold>(l: Seq<HashOf<T>>) -> Seq<HashOf<T>>
    decreases l.len(),
{
    if l.len() == 0 {
        Seq::empty()
    } else if l.len() % 2 == 1 {
        spine::<T>(l.drop_last()).push(l.last())
    } else {
        spine::<T>(pair_up::<T>(l))
    }
}

/// Folding the spine from its top (the shallowest root) to its bottom.
pub open spec fn root_of_spine<T: TreeFold>(s: Seq<HashOf<T>>) -> HashOf<T>
    recommends
        s.len() >= 1,
    decreases s.len(),
{
    if s.len() <= 1 {
        s[0]
    } else {
        T::node_hash(s[0], root_of_spine::<T>(s.drop_first()))
    }
}

/// The root hash of the Merkle tree over the leaf hashes `l`.
pub open spec fn merkle_root<T: TreeFold>(l: Seq<HashOf<T>>) -> HashOf<T>
    recommends
        l.len() >= 1,
{
    root_of_spine::<T>(spine::<T>(l))
}

/// Folding `h` upward into the last `k` spine entries, deepest last.
pub open spec fn fold_chain<T: TreeFold>(s: Seq<HashOf<T>>, h: HashOf<T>, k: nat) -> HashOf<T>
    recommends
        k <= s.len(),
    decreases k,
{
    if k == 0 {
        h
    } else {
        fold_chain::<T>(s.drop_last(), T::node_hash(s.last(), h), (k - 1) as nat)
    }
}

/// The root of a perfect subtree of height `d` whose leaves all hash to `v`.
pub open spec fn doubled<T: TreeFold>(v: HashOf<T>, d: nat) -> HashOf<T>
    decreases d,
{
    if d == 0 {
        v
    } else {
        let w = doubled::<T>(v, (d - 1) as nat);
        T::node_hash(w, w)
    }
}

/// The stack holds one root per set bit of the leaf count.
pub proof fn lemma_spine_popcount<T: TreeFold>(l: Seq<HashOf<T>>)
    ensures
        spine::<T>(l).len() == popcount(l.len() as nat),
    decreases l.len(),
{
    if l.len() == 0 {
    } else if l.len() % 2 == 1 {
        lemma_spine_popcount::<T>(l.drop_last());
        assert(l.drop_last().len() % 2 == 0);
        assert(popcount((l.len() - 1) as nat) == popcount(((l.len() - 1) / 2) as nat));
        assert(popcount(l.len() as nat) == popcount((l.len() / 2) as nat) + 1);
    } else {
        lemma_spine_popcount::<T>(pair_up::<T>(l));
    }
}

/// Two backends over the same target type that hash pairs alike build
/// the same spine.
pub proof fn lemma_backend_spine_agree<A: TreeFold, B: TreeFold<Target = A::Target>>(
    l: Seq<HashOf<A>>,
)
    requires
        forall|x: HashOf<A>, y: HashOf<A>| #[trigger] A::node_hash(x, y) == B::node_hash(x, y),
    ensures
        spine::<A>(l) == spine::<B>(l),
    decreases l.len(),
{
    if l.len() == 0 {
    } else if l.len() % 2 == 1 {
        lemma_backend_spine_agree::<A, B>(l.drop_last());
    } else {
        assert(pair_up::<A>(l) =~= pair_up::<B>(l));
        lemma_backend_spine_agree::<A, B>(pair_up::<A>(l));
    }
}

/// And they fold any spine to the same value.
pub proof fn lemma_backend_fold_agree<A: TreeFold, B: TreeFold<Target = A::Target>>(
    s: Seq<HashOf<A>>,
)
    requires
        forall|x: HashOf<A>, y: HashOf<A>| #[trigger] A::node_hash(x, y) == B::node_hash(x, y),
    ensures
        root_of_spine::<A>(s) == root_of_spine::<B>(s),
    decreases s.len(),
{
    if s.len() > 1 {
        lemma_backend_fold_agree::<A, B>(s.drop_first());
    }
}

/// So the whole root agrees: decorating a backend with a pass-through
/// wrapper cannot change the committed root.
pub proof fn lemma_backend_root_agree<A: TreeFold, B: TreeFold<Target = A::Target>>(
    l: Seq<HashOf<A>>,
)
    requires
        forall|x: HashOf<A>, y: HashOf<A>| #[trigger] A::node_hash(x, y) == B::node_hash(x, y),
    ensures
        merkle_root::<A>(l) == merkle_root::<B>(l),
{
    lemma_backend_spine_agree::<A, B>(l);
    lemma_backend_fold_agree::<A, B>(spine::<A>(l));
}

/// Lifting a doubled value one pairing level: the perfect subtree of
/// height `j` over `node_hash(v, v)` is the one of height `j + 1` over `v`.
proof fn lemma_doubled_shift<T: TreeFold>(v: HashOf<T>, j: nat)
    ensures
        doubled::<T>(T::node_hash(v, v), j) == doubled::<T>(v, j + 1),
    decreases j,
{
    let v2 = T::node_hash(v, v);
    assert(doubled::<T>(v, j + 1) == T::node_hash(doubled::<T>(v, j), doubled::<T>(v, j)));
    if j == 0 {
        assert(doubled::<T>(v2, 0) == v2);
        assert(doubled::<T>(v, 0) == v);
    } else {
        lemma_doubled_shift::<T>(v, (j - 1) as nat);
        let w = doubled::<T>(v2, (j - 1) as nat);
        assert(doubled::<T>(v2, j) == T::node_hash(w, w));
        assert(w == doubled::<T>(v, j));
    }
}

/// Appending a block of `pow2(d)` equal leaves to an aligned leaf sequence
/// merges the block's perfect root into the spine exactly as the folder's
/// merge loop does: `k` entries are popped and folded in, one new entry is
/// pushed.
pub proof fn lemma_spine_extend_pow2<T: TreeFold>(l: Seq<HashOf<T>>, v: HashOf<T>, d: nat)
    requires
        l.len() % pow2(d) == 0,
    ensures
        tz((l.len() + pow2(d)) as nat) >= d,
        spine::<T>(l).len() >= tz((l.len() + pow2(d)) as nat) - d,
        ({
            let k = (tz((l.len() + pow2(d)) as nat) - d) as nat;
            spine::<T>(l + Seq::new(pow2(d), |i: int| v)) == spine::<T>(l).take(
                spine::<T>(l).len() - k,
            ).push(fold_chain::<T>(spine::<T>(l), doubled::<T>(v, d), k))
        }),
    decreases d,
{
    lemma_pow2_pos(d);
    if d == 0 {
        lemma2_to64();
        assert(Seq::new(1, |i: int| v) =~= seq![v]);
        lemma_spine_push::<T>(l, v);
    } else {
        lemma_pow2_unfold(d);
        let p1 = pow2((d - 1) as nat);
        lemma_pow2_pos((d - 1) as nat);
        assert(pow2(d) == 2 * p1);
        // l has even length, since pow2(d) is even and divides it
        let q = l.len() as int / (2 * p1) as int;
        vstd::arithmetic::div_mod::lemma_fundamental_div_mod(l.len() as int, (2 * p1) as int);
        assert(l.len() as int == (2 * p1) * q);
        assert(l.len() as int == 2 * (p1 * q) && p1 * q >= 0) by (nonlinear_arith)
            requires
                l.len() as int == (2 * p1) * q,
                p1 > 0,
                l.len() >= 0,
        ;
        assert(l.len() % 2 == 0 && l.len() as int / 2 == p1 * q) by (nonlinear_arith)
            requires
                l.len() as int == 2 * (p1 * q),
                p1 * q >= 0,
        ;
        let lx = l + Seq::new(pow2(d), |i: int| v);
        assert(lx.len() % 2 == 0);
        let v2 = T::node_hash(v, v);
        // pairing the extended sequence pairs the old part and the block
        assert(pair_up::<T>(lx) =~= pair_up::<T>(l) + Seq::new(p1, |i: int| v2));
        if l.len() > 0 {
            assert(spine::<T>(l) == spine::<T>(pair_up::<T>(l)));
        } else {
            assert(pair_up::<T>(l) =~= Seq::<HashOf<T>>::empty());
            assert(spine::<T>(l) == spine::<T>(pair_up::<T>(l)));
        }
        // alignment one level up
        assert(pair_up::<T>(l).len() == l.len() / 2);
        vstd::arithmetic::div_mod::lemma_mod_multiples_basic(q, p1 as int);
        assert((l.len() / 2) % p1 == 0);
        lemma_spine_extend_pow2::<T>(pair_up::<T>(l), v2, (d - 1) as nat);
        lemma_doubled_shift::<T>(v, (d - 1) as nat);
        // the trailing-zero count steps down with the halving
        let m = (l.len() + pow2(d)) as nat;
        assert(m % 2 == 0 && m / 2 == l.len() / 2 + p1) by (nonlinear_arith)
            requires
                l.len() % 2 == 0,
                pow2(d) == 2 * p1,
                m == l.len() + pow2(d),
        ;
        assert(m > 0);
        assert(tz(m) == tz((l.len() / 2 + p1) as nat) + 1);
        assert(spine::<T>(lx) == spine::<T>(pair_up::<T>(lx)));
    }
}

/// Appending one leaf hash `h` pops the spine's trailing run and folds `h`
/// through it, as `push`'s merge loop does.
pub proof fn lemma_spine_push<T: TreeFold>(l: Seq<HashOf<T>>, h: HashOf<T>)
    ensures
        spine::<T>(l).len() >= tz((l.len() + 1) as nat),
        ({
            let k = tz((l.len() + 1) as nat);
            spine::<T>(l + seq![h]) == spine::<T>(l).take(spine::<T>(l).len() - k).push(
                fold_chain::<T>(spine::<T>(l), h, k),
            )
        }),
    decreases l.len(),
{
    let lx = l + seq![h];
    if l.len() % 2 == 0 {
        // the new count is odd: the leaf sits alone on top of the stack
        assert(tz((l.len() + 1) as nat) == 0);
        assert(lx.len() % 2 == 1);
        assert(lx.drop_last() =~= l);
        assert(lx.last() == h);
        assert(spine::<T>(lx) == spine::<T>(l).push(h));
        assert(spine::<T>(l).take(spine::<T>(l).len() as int) =~= spine::<T>(l));
    } else {
        // the new count is even: the leaf merges with the previous odd one
        let ld = l.drop_last();
        assert(ld.len() % 2 == 0);
        let l2 = pair_up::<T>(ld);
        let h2 = T::node_hash(l.last(), h);
        assert(lx.len() % 2 == 0);
        assert(pair_up::<T>(lx) =~= l2 + seq![h2]);
        lemma_spine_push::<T>(l2, h2);
        // spine(l) ends with the lone leaf on top of spine(l2)
        assert(spine::<T>(l) == spine::<T>(ld).push(l.last()));
        if ld.len() > 0 {
            assert(spine::<T>(ld) == spine::<T>(l2));
        } else {
            assert(l2 =~= Seq::<HashOf<T>>::empty());
            assert(spine::<T>(ld) == spine::<T>(l2));
        }
        let s2 = spine::<T>(l2);
        let s = spine::<T>(l);
        let k2 = tz((l2.len() + 1) as nat);
        let k = tz((l.len() + 1) as nat);
        // one pairing level halves the new count and drops one trailing zero
        assert((l.len() + 1) % 2 == 0 && (l.len() + 1) / 2 == l2.len() + 1);
        assert(k == k2 + 1);
        assert(s == s2.push(l.last()));
        // the first merge folds the lone leaf; the rest is the level above
        assert(s.drop_last() =~= s2);
        assert(s.last() == l.last());
        assert(fold_chain::<T>(s, h, k) == fold_chain::<T>(s2, h2, k2));
        assert(s.take(s.len() - k) =~= s2.take(s2.len() - k2));
        assert(spine::<T>(lx) == spine::<T>(pair_up::<T>(lx)));
    }
}

/// The backend has no pending target: any tracked index was already seen.
pub open spec fn target_retired<T: TreeFold>(b: T) -> bool {
    match b.tracked_index() {
        Some(t) => t < b.leaves_seen(),
        None => true,
    }
}

/// An observing backend agrees with the folder: its depth counts the
/// stack entries (and any value in flight), and once it has picked a
/// target, its evolving record folds to the entry at its target depth.
pub open spec fn observer_coupled<T: TreeFold>(b: T, s: Seq<HashOf<T>>) -> bool {
    &&& b.depth() == s.len()
    &&& match b.target_depth() {
        None => true,
        Some(tsi) => 1 <= tsi <= s.len() && (b.recorded_fold() matches Some(v) && v == s[tsi
            - 1]),
    }
}

/// The views of a vector of hash values.
pub open spec fn views<T: TreeFold>(s: Seq<T::Target>) -> Seq<HashOf<T>> {
    Seq::new(s.len(), |i: int| s[i]@)
}

/// The hashes of a sequence of leaves, in order.
pub open spec fn leaf_hashes<T: TreeFold>(leaves: Seq<T::Leaf>) -> Seq<HashOf<T>> {
    Seq::new(leaves.len(), |i: int| T::leaf_hash(leaves[i]@))
}

/// Filling to the next power of two appends the same leaf hashes as
/// pushing the sentinel leaf one by one until the count reaches that
/// power; afterwards the count is a power of two, so the spine holds
/// exactly one entry, the root of the now-perfect tree.
pub proof fn lemma_fill_matches_plain_pushes<T: TreeFold>(l: Seq<HashOf<T>>, s: HashOf<T>)
    ensures
        ({
            let padded = l + Seq::new((next_pow2(l.len()) - l.len()) as nat, |i: int| s);
            &&& padded.len() == next_pow2(l.len())
            &&& spine::<T>(padded).len() == 1
            &&& merkle_root::<T>(padded) == spine::<T>(padded)[0]
        }),
{
    lemma_next_pow2_is_pow2(l.len());
    let padded = l + Seq::new((next_pow2(l.len()) - l.len()) as nat, |i: int| s);
    lemma_spine_popcount::<T>(padded);
    lemma_popcount_pow2(next_pow2_exp(l.len()));
    assert(root_of_spine::<T>(spine::<T>(padded)) == spine::<T>(padded)[0]);
}

/// The smallest power of two that is at least `n`.
fn next_pow2_exec(n: usize) -> (r: usize)
    requires
        n <= usize::MAX / 2 + 1,
    ensures
        r == next_pow2(n as nat),
{
    proof {
        lemma_next_pow2_is_pow2(n as nat);
        lemma2_to64();
    }
    let mut p: usize = 1;
    let ghost mut j: nat = 0;
    while p < n
        invariant
            p == pow2(j),
            n <= usize::MAX / 2 + 1,
            j > 0 ==> pow2((j - 1) as nat) < n,
        decreases 2 * (n as int) - p,
    {
        proof {
            lemma_pow2_pos(j);
            lemma_pow2_unfold(j + 1);
        }
        p = p * 2;
        proof {
            j = j + 1;
        }
    }
    proof {
        lemma_next_pow2_least(n as nat, j);
        let e = next_pow2_exp(n as nat);
        if j > 0 {
            if (j - 1) as nat >= e {
                if (j - 1) as nat > e {
                    lemma_pow2_strictly_increases(e, (j - 1) as nat);
                }
                assert(pow2((j - 1) as nat) >= next_pow2(n as nat));
                assert(false);
            }
            assert(j <= e);
            if j < e {
                lemma_pow2_strictly_increases(j, e);
            }
        } else {
            assert(p == 1);
            assert(n <= 1);
        }
    }
    p
}

/// The online Merkle tree folder over a hash backend `T`.
///
/// The stack holds the roots of the perfect subtrees not yet merged, one
/// per set bit of `leaf_count`, deepest first; the ghost `leaves` records
/// the hash of every leaf pushed so far and drives all the contracts.
pub struct TreeFolder<T: TreeFold> {
    base: T,
    stack: Vec<T::Target>,
    leaf_count: usize,
    leaves: Ghost<Seq<HashOf<T>>>,
}

impl<T: TreeFold> TreeFolder<T> {
    /// The hash of every leaf pushed so far, in order.
    pub closed spec fn leaves(&self) -> Seq<HashOf<T>> {
        self.leaves@
    }

    /// The hash backend the folder owns.
    pub closed spec fn spec_base(&self) -> T {
        self.base
    }

    /// Exclusive access to the backend between pushes; the tracker uses
    /// this to change its target index.  The folder's own state is
    /// untouched, so well-formedness survives whatever the caller does.
    pub fn base_mut(&mut self) -> (r: &mut T)
        ensures
            *r == old(self).spec_base(),
            final(self).spec_base() == *final(r),
            final(self).leaves() == old(self).leaves(),
            old(self).wf() ==> final(self).wf(),
            old(self).finalized() ==> final(self).finalized(),
    {
        &mut self.base
    }

    /// The folder is mid-build: the stack mirrors the set bits of the
    /// count, so pushes and fills may continue.
    pub closed spec fn wf(&self) -> bool {
        &&& self.leaf_count == self.leaves@.len()
        &&& views::<T>(self.stack@) == spine::<T>(self.leaves@)
    }

    /// The folder has been finalised: the root alone remains on the
    /// stack, so `result` may be called again and returns the same root.
    pub closed spec fn finalized(&self) -> bool {
        &&& self.leaf_count == self.leaves@.len()
        &&& self.leaves@.len() >= 1
        &&& views::<T>(self.stack@) == seq![merkle_root::<T>(self.leaves@)]
    }

    pub fn new(base: T) -> (r: Self)
        ensures
            r.wf(),
            r.leaves() == Seq::<HashOf<T>>::empty(),
            r.spec_base() == base,
    {
        let r = TreeFolder { base, stack: Vec::new(), leaf_count: 0, leaves: Ghost(Seq::empty()) };
        proof {
            assert(views::<T>(r.stack@) =~= spine::<T>(r.leaves@));
        }
        r
    }

    /// A finalised folder holds at least one leaf, so `result` returns
    /// `Some` again.
    pub proof fn lemma_finalized_nonempty(&self)
        requires
            self.finalized(),
        ensures
            self.leaves().len() >= 1,
    {
    }

    /// Consume the folder and hand the backend back.
    pub fn into_base(self) -> (r: T)
        ensures
            r == self.spec_base(),
    {
        self.base
    }

    /// The number of leaves pushed so far, filled ones included.
    pub fn len(&self) -> (r: usize)
        requires
            self.wf() || self.finalized(),
        ensures
            r == self.leaves().len(),
    {
        self.leaf_count
    }

    /// Pop `k` entries, folding each one into `h` as its left sibling,
    /// and push what results.  This is the merge loop shared by `push`
    /// and `fill`.
    fn merge_push(&mut self, h: T::Target, k: usize) -> (r: Result<(), Error>)
        requires
            k <= old(self).stack@.len(),
        ensures
            r is Ok,
            final(self).stack@.len() == old(self).stack@.len() - k + 1,
            views::<T>(final(self).stack@) == views::<T>(old(self).stack@).take(
                old(self).stack@.len() - k,
            ).push(fold_chain::<T>(views::<T>(old(self).stack@), h@, k as nat)),
            final(self).leaf_count == old(self).leaf_count,
            final(self).leaves@ == old(self).leaves@,
            final(self).base.fill_mode() == old(self).base.fill_mode(),
            final(self).base.recorded_leaf() == old(self).base.recorded_leaf(),
            final(self).base.tracked_index() == old(self).base.tracked_index(),
            final(self).base.leaves_seen() == old(self).base.leaves_seen(),
            (T::observing() && !old(self).base.fill_mode() && observer_coupled::<T>(
                old(self).base,
                views::<T>(old(self).stack@).push(h@),
            )) ==> observer_coupled::<T>(final(self).base, views::<T>(final(self).stack@)),
            (T::observing() && !old(self).base.fill_mode()) ==> (final(self).base.target_depth()
                is Some <==> old(self).base.target_depth() is Some),
    {
        let ghost h0v = h@;
        let ghost coupled0 = T::observing() && !old(self).base.fill_mode()
            && observer_coupled::<T>(old(self).base, views::<T>(old(self).stack@).push(h0v));
        let ghost s0 = views::<T>(old(self).stack@);
        let ghost target = fold_chain::<T>(s0, h@, k as nat);
        let mut h = h;
        let mut c = k;
        while c > 0
            invariant
                c <= k,
                self.stack@.len() == s0.len() - (k - c),
                views::<T>(self.stack@) == s0.take(s0.len() - (k - c)),
                fold_chain::<T>(views::<T>(self.stack@), h@, c as nat) == target,
                self.leaf_count == old(self).leaf_count,
                self.leaves@ == old(self).leaves@,
                self.base.fill_mode() == old(self).base.fill_mode(),
                self.base.recorded_leaf() == old(self).base.recorded_leaf(),
                self.base.tracked_index() == old(self).base.tracked_index(),
                self.base.leaves_seen() == old(self).base.leaves_seen(),
                coupled0 ==> observer_coupled::<T>(
                    self.base,
                    views::<T>(self.stack@).push(h@),
                ),
                coupled0 == (T::observing() && !old(self).base.fill_mode()
                    && observer_coupled::<T>(
                    old(self).base,
                    views::<T>(old(self).stack@).push(h0v),
                )),
                (T::observing() && !old(self).base.fill_mode()) ==> (self.base.target_depth()
                    is Some <==> old(self).base.target_depth() is Some),
                s0 == views::<T>(old(self).stack@),
                k <= s0.len(),
            decreases c,
        {
            let ghost cur = views::<T>(self.stack@);
            let left = self.stack.pop().unwrap();
            proof {
                assert(left@ == cur.last());
                assert(views::<T>(self.stack@) =~= cur.drop_last());
                assert(cur.drop_last() =~= s0.take(s0.len() - (k - c) - 1));
            }
            let ghost hpre = h@;
            let ghost bpre = self.base;
            let folded = match self.base.fold(&left, &h) {
                Ok(f) => f,
                Err(e) => {
                    return Err(e);
                },
            };
            h = folded;
            c = c - 1;
            proof {
                if coupled0 {
                    let sf_pre = cur.push(hpre);
                    let sf_post = views::<T>(self.stack@).push(h@);
                    assert(sf_post =~= cur.drop_last().push(h@));
                    assert(sf_pre.len() == cur.len() + 1);
                    assert(sf_pre.last() == hpre);
                    assert(cur.len() >= 1);
                    assert(sf_pre[cur.len() - 1] == cur.last());
                    assert(h@ == T::node_hash(left@, hpre));
                    match bpre.target_depth() {
                        None => {},
                        Some(tsi) => {
                            if tsi == bpre.depth() {
                                assert(bpre.recorded_fold() matches Some(v) && v == sf_pre[tsi
                                    - 1]);
                                assert(sf_pre[tsi - 1] == hpre);
                                assert(self.base.recorded_fold() == Some(
                                    T::node_hash(left@, hpre),
                                ));
                                assert(self.base.target_depth() == Some((tsi - 1) as nat));
                                assert(sf_post[cur.len() - 1] == h@);
                            } else if tsi == bpre.depth() - 1 {
                                assert(bpre.recorded_fold() matches Some(v) && v == sf_pre[tsi
                                    - 1]);
                                assert(sf_pre[tsi - 1] == cur.last());
                                assert(self.base.recorded_fold() == Some(
                                    T::node_hash(cur.last(), hpre),
                                ));
                                assert(sf_post[tsi - 1] == h@);
                            } else {
                                assert(tsi < cur.len());
                                assert(sf_post[tsi - 1] == sf_pre[tsi - 1]);
                            }
                        },
                    }
                    assert(observer_coupled::<T>(self.base, sf_post));
                }
            }
        }
        proof {
            assert(views::<T>(self.stack@) == s0.take(s0.len() - k));
            assert(h@ == target);
        }
        let ghost pre = views::<T>(self.stack@);
        self.stack.push(h);
        proof {
            assert(views::<T>(self.stack@) =~= pre.push(target));
            if coupled0 {
                assert(observer_coupled::<T>(self.base, pre.push(h@)));
                assert(views::<T>(self.stack@) == pre.push(h@));
            }
        }
        Ok(())
    }

    /// Append one leaf.  Its hash is merged with the stack's trailing run
    /// of equal-height roots, one fold per trailing set bit of the old
    /// count, and the count goes up by one.
    pub fn push(&mut self, leaf: &T::Leaf) -> (r: Result<(), Error>)
        requires
            old(self).wf(),
            old(self).leaves().len() < usize::MAX,
        ensures
            r is Ok,
            final(self).wf(),
            final(self).leaves() == old(self).leaves().push(T::leaf_hash(leaf@)),
            final(self).spec_base().fill_mode() == old(self).spec_base().fill_mode(),
            final(self).spec_base().tracked_index() == old(self).spec_base().tracked_index(),
            old(self).spec_base().fill_mode() ==> (final(self).spec_base().leaves_seen() == old(self).spec_base().leaves_seen() && final(self).spec_base().recorded_leaf() == old(self).spec_base().recorded_leaf()),
            !old(self).spec_base().fill_mode() ==> old(self).spec_base().leaves_seen() <= final(self).spec_base().leaves_seen() <= old(self).spec_base().leaves_seen() + 1,
            (!old(self).spec_base().fill_mode() && old(self).spec_base().leaves_seen()
                < usize::MAX && old(self).spec_base().tracked_index() == Some(
                old(self).spec_base().leaves_seen(),
            )) ==> (final(self).spec_base().recorded_leaf() == Some(T::leaf_hash(leaf@))
                && target_retired::<T>(final(self).spec_base())),
            (!old(self).spec_base().fill_mode() && old(self).spec_base().tracked_index() != Some(
                old(self).spec_base().leaves_seen(),
            )) ==> final(self).spec_base().recorded_leaf() == old(self).spec_base().recorded_leaf(),
            (!old(self).spec_base().fill_mode() && target_retired::<T>(old(self).spec_base()))
                ==> target_retired::<T>(final(self).spec_base()),
            (T::observing() && !old(self).spec_base().fill_mode() && observer_coupled::<T>(
                old(self).spec_base(),
                spine::<T>(old(self).leaves()),
            )) ==> observer_coupled::<T>(
                final(self).spec_base(),
                spine::<T>(final(self).leaves()),
            ),
            (T::observing() && !old(self).spec_base().fill_mode() && old(self).spec_base().target_depth() is Some) ==> final(self).spec_base().target_depth() is Some,
            (T::observing() && !old(self).spec_base().fill_mode() && old(self).spec_base().target_depth() is None && old(self).spec_base().tracked_index() != Some(old(self).spec_base().leaves_seen())) ==> final(self).spec_base().target_depth() is None,
            (T::observing() && !old(self).spec_base().fill_mode() && old(self).spec_base().leaves_seen() < usize::MAX && old(self).spec_base().tracked_index() == Some(old(self).spec_base().leaves_seen())) ==> final(self).spec_base().target_depth() is Some,
    {
        let ghost l0 = self.leaves@;
        let ghost s0 = spine::<T>(l0);
        let ghost hv = T::leaf_hash(leaf@);
        let ghost coupled0 = T::observing() && !self.base.fill_mode() && observer_coupled::<T>(
            self.base,
            s0,
        );
        proof {
            lemma_spine_push::<T>(l0, hv);
            lemma_spine_popcount::<T>(l0);
            crate::arith::lemma_popcount_le(l0.len());
        }
        let ghost k_spec = tz((l0.len() + 1) as nat);
        let ghost bpre = self.base;
        let h = match self.base.input(leaf) {
            Ok(h) => h,
            Err(e) => {
                return Err(e);
            },
        };
        proof {
            if coupled0 {
                // after the input, the observer counts the leaf hash in
                // flight; a fresh record sits exactly there
                let sf = views::<T>(self.stack@).push(h@);
                assert(views::<T>(self.stack@) == s0);
                assert(sf.len() == s0.len() + 1);
                assert(sf.last() == h@);
                if bpre.tracked_index() == Some(bpre.leaves_seen()) {
                    assert(self.base.target_depth() == Some(self.base.depth()));
                    assert(self.base.recorded_fold() == Some(hv));
                } else {
                    assert(self.base.target_depth() == bpre.target_depth());
                    assert(self.base.recorded_fold() == bpre.recorded_fold());
                }
                assert(observer_coupled::<T>(self.base, sf));
            }
        }
        // count the trailing set bits of the old count
        let mut b: usize = self.leaf_count + 1;
        let mut k: usize = 0;
        proof {
            lemma2_to64();
        }
        while b % 2 == 0
            invariant
                b > 0,
                b * pow2(k as nat) == l0.len() + 1,
                k < l0.len() + 1,
                l0.len() < usize::MAX,
            decreases b,
        {
            proof {
                lemma_pow2_unfold((k + 1) as nat);
                assert((b / 2) * pow2((k + 1) as nat) == b * pow2(k as nat) && b / 2 >= 1)
                    by (nonlinear_arith)
                    requires
                        b % 2 == 0,
                        b > 0,
                        pow2((k + 1) as nat) == 2 * pow2(k as nat),
                ;
                assert(pow2((k + 1) as nat) <= l0.len() + 1) by (nonlinear_arith)
                    requires
                        (b / 2) * pow2((k + 1) as nat) == l0.len() + 1,
                        b / 2 >= 1,
                        pow2((k + 1) as nat) >= 0,
                ;
                lemma_pow2_gt_exp((k + 1) as nat);
            }
            b = b / 2;
            k = k + 1;
        }
        proof {
            lemma_tz_mul_pow2(b as nat, k as nat);
            assert(tz(b as nat) == 0);
            assert(k == k_spec);
        }
        match self.merge_push(h, k) {
            Ok(()) => {},
            Err(e) => {
                return Err(e);
            },
        }
        self.leaf_count = self.leaf_count + 1;
        self.leaves = Ghost(l0.push(hv));
        proof {
            assert(l0 + seq![hv] =~= l0.push(hv));
        }
        Ok(())
    }

    /// Push every leaf of `leaves`, in order.
    pub fn extend(&mut self, leaves: &Vec<T::Leaf>) -> (r: Result<(), Error>)
        requires
            old(self).wf(),
            old(self).leaves().len() + leaves@.len() <= usize::MAX,
        ensures
            r is Ok,
            final(self).wf(),
            final(self).leaves() == old(self).leaves() + leaf_hashes::<T>(leaves@),
    {
        let ghost l0 = self.leaves@;
        let mut i: usize = 0;
        while i < leaves.len()
            invariant
                i <= leaves@.len(),
                self.wf(),
                l0.len() + leaves@.len() <= usize::MAX,
                self.leaves() == l0 + leaf_hashes::<T>(leaves@.take(i as int)),
            decreases leaves@.len() - i,
        {
            match self.push(&leaves[i]) {
                Ok(()) => {},
                Err(e) => {
                    return Err(e);
                },
            }
            i = i + 1;
            proof {
                assert(l0 + leaf_hashes::<T>(leaves@.take(i as int)) =~= (l0 + leaf_hashes::<T>(
                    leaves@.take(i - 1),
                )).push(T::leaf_hash(leaves@[i - 1]@)));
            }
        }
        proof {
            assert(leaves@.take(leaves@.len() as int) =~= leaves@);
        }
        Ok(())
    }

    /// Pad the tree to the next power of two, using `fill_input` as the
    /// virtual leaf for every new position.  One perfect sentinel subtree
    /// is merged per set bit of the missing count; their roots are built
    /// once and cached, so the whole fill costs `O(log n)` hash calls.
    /// Returns the number of leaves appended.
    pub fn fill(&mut self, fill_input: T::Leaf) -> (r: Result<usize, Error>)
        requires
            old(self).wf(),
            old(self).leaves().len() <= usize::MAX / 2 + 1,
        ensures
            final(self).wf(),
            ({
                let n = old(self).leaves().len();
                let pad = (next_pow2(n) - n) as nat;
                &&& r matches Ok(c) && c == pad
                &&& final(self).leaves() == old(self).leaves() + Seq::new(
                    pad,
                    |i: int| T::leaf_hash(fill_input@),
                )
                &&& final(self).leaves().len() == next_pow2(n)
            }),
            // a count that is already a power of two makes fill a no-op
            next_pow2(old(self).leaves().len()) == old(self).leaves().len() ==> *final(self)
                == *old(self),
            // outside a window, filling opens and closes its own windows
            // and leaves the backend's observation state alone
            !old(self).spec_base().fill_mode() ==> (!final(self).spec_base().fill_mode() && final(self).spec_base().recorded_leaf() == old(self).spec_base().recorded_leaf() && final(self).spec_base().tracked_index() == old(self).spec_base().tracked_index() && final(self).spec_base().leaves_seen() == old(self).spec_base().leaves_seen()),
            (T::observing() && !old(self).spec_base().fill_mode() && observer_coupled::<T>(
                old(self).spec_base(),
                spine::<T>(old(self).leaves()),
            )) ==> observer_coupled::<T>(
                final(self).spec_base(),
                spine::<T>(final(self).leaves()),
            ),
            (T::observing() && !old(self).spec_base().fill_mode()) ==> (final(self).spec_base().target_depth() is Some <==> old(self).spec_base().target_depth() is Some),
    {
        let ghost l0 = self.leaves@;
        let ghost n = l0.len();
        let ghost sv = T::leaf_hash(fill_input@);
        let ghost bfill0 = self.base.fill_mode();
        let ghost brec0 = self.base.recorded_leaf();
        let ghost btrk0 = self.base.tracked_index();
        let ghost bseen0 = self.base.leaves_seen();
        let ghost coupledf = T::observing() && !bfill0 && observer_coupled::<T>(
            self.base,
            spine::<T>(l0),
        );
        let ghost kk = next_pow2_exp(n);
        proof {
            lemma_next_pow2_is_pow2(n);
            lemma2_to64();
        }
        let mut fill_cache: Vec<T::Target> = Vec::new();
        let fill_size = next_pow2_exec(self.leaf_count);
        let filled = fill_size - self.leaf_count;
        let ghost m = filled as nat;
        let mut fill_count = filled;
        let mut fill_depth: usize = 0;
        let mut step: usize = 1;
        proof {
            assert(m % pow2(0) == 0) by {
                assert(pow2(0) == 1);
                assert(m % 1 == 0) by (nonlinear_arith);
            }
            assert(Seq::new(0, |i: int| sv) =~= Seq::<HashOf<T>>::empty());
            assert(self.leaves@ =~= l0 + Seq::new((m % pow2(0)) as nat, |i: int| sv));
        }
        while fill_count > 0
            invariant
                self.wf(),
                m == 0 ==> *self == *old(self),
                !bfill0 ==> (!self.base.fill_mode() && self.base.recorded_leaf() == brec0
                    && self.base.tracked_index() == btrk0 && self.base.leaves_seen() == bseen0),
                coupledf ==> observer_coupled::<T>(self.base, views::<T>(self.stack@)),
                coupledf == (T::observing() && !bfill0 && observer_coupled::<T>(
                    old(self).spec_base(),
                    spine::<T>(l0),
                )),
                (T::observing() && !bfill0) ==> (self.base.target_depth() is Some <==> old(self).spec_base().target_depth() is Some),
                bfill0 == old(self).spec_base().fill_mode(),
                brec0 == old(self).spec_base().recorded_leaf(),
                btrk0 == old(self).spec_base().tracked_index(),
                bseen0 == old(self).spec_base().leaves_seen(),
                sv == T::leaf_hash(fill_input@),
                n + m == pow2(kk),
                pow2(kk) == next_pow2(n),
                fill_size == pow2(kk),
                step == pow2(fill_depth as nat),
                fill_count == m / pow2(fill_depth as nat),
                self.leaves@ == l0 + Seq::new(
                    (m % pow2(fill_depth as nat)) as nat,
                    |i: int| sv,
                ),
                self.leaf_count == n + m % pow2(fill_depth as nat),
                forall|i: int|
                    0 <= i < fill_cache@.len() ==> (#[trigger] fill_cache@[i])@ == doubled::<T>(
                        sv,
                        i as nat,
                    ),
            decreases fill_count,
        {
            let ghost d = fill_depth as nat;
            let ghost p = pow2(d);
            proof {
                lemma_pow2_pos(d);
                // the loop runs, so bit `d` or a higher one is set: pow2(d) <= m
                assert(m >= p) by (nonlinear_arith)
                    requires
                        m / p >= 1,
                        p > 0,
                        m >= 0,
                ;
            }
            if fill_count % 2 == 1 {
                proof {
                    // d <= kk, so pow2(kk) is a multiple of pow2(d)
                    if d > kk {
                        lemma_pow2_strictly_increases(kk, d);
                        assert(false);
                    }
                    lemma_pow2_adds(d, (kk - d) as nat);
                    vstd::arithmetic::div_mod::lemma_mod_multiples_basic(
                        pow2((kk - d) as nat) as int,
                        p as int,
                    );
                    assert(p * pow2((kk - d) as nat) == pow2((kk - d) as nat) * p)
                        by (nonlinear_arith);
                    assert(pow2(kk) % p == 0);
                    // hence the current count is a multiple of pow2(d)
                    vstd::arithmetic::div_mod::lemma_add_mod_noop_right(
                        n as int,
                        m as int,
                        p as int,
                    );
                    assert((n + m % p) % p == 0);
                }
                self.base.start_fill();
                proof {
                    // the depth is bounded by its own power of two
                    lemma_pow2_gt_exp(d);
                }
                if fill_cache.len() == 0 {
                    let h0 = match self.base.input(&fill_input) {
                        Ok(h) => h,
                        Err(e) => {
                            return Err(e);
                        },
                    };
                    let ghost h0v = h0@;
                    let ghost c0 = fill_cache@;
                    fill_cache.push(h0);
                    proof {
                        assert(h0v == T::leaf_hash(fill_input@));
                        assert(doubled::<T>(sv, 0) == sv);
                        assert(fill_cache@.len() == 1);
                        assert(fill_cache@[0]@ == h0v);
                        assert(fill_cache@[0]@ == sv);
                        assert forall|i: int| 0 <= i < fill_cache@.len() implies (
                        #[trigger] fill_cache@[i])@ == doubled::<T>(sv, i as nat) by {
                            assert(i == 0);
                            assert(fill_cache@[0]@ == sv);
                        }
                    }
                }
                while fill_cache.len() <= fill_depth
                    invariant
                        fill_cache@.len() >= 1,
                        forall|i: int|
                            0 <= i < fill_cache@.len() ==> (#[trigger] fill_cache@[i])@
                                == doubled::<T>(sv, i as nat),
                        !bfill0 ==> (self.base.fill_mode() && self.base.recorded_leaf() == brec0
                            && self.base.tracked_index() == btrk0 && self.base.leaves_seen()
                            == bseen0),
                        coupledf ==> (T::observing() && !bfill0 && observer_coupled::<T>(
                            self.base,
                            views::<T>(self.stack@),
                        )),
                        (T::observing() && !bfill0) ==> (self.base.target_depth() is Some <==> old(self).spec_base().target_depth() is Some),
                        self.wf(),
                        self.leaves@ == l0 + Seq::new((m % pow2(d)) as nat, |i: int| sv),
                        self.leaf_count == n + m % pow2(d),
                        fill_depth < usize::MAX,
                    decreases fill_depth + 1 - fill_cache@.len(),
                {
                    let idx = fill_cache.len() - 1;
                    let prev = T::dup(&fill_cache[idx]);
                    let hc = match self.base.fold(&prev, &prev) {
                        Ok(h) => h,
                        Err(e) => {
                            return Err(e);
                        },
                    };
                    fill_cache.push(hc);
                }
                let h = T::dup(&fill_cache[fill_depth]);
                proof {
                    if coupledf {
                        // the stack is bounded strictly below the counter
                        // limit, so the observer can count the flight value
                        lemma_spine_popcount::<T>(self.leaves@);
                        crate::arith::lemma_popcount_le(self.leaves@.len());
                        assert(self.stack@.len() < usize::MAX);
                    }
                }
                self.base.end_fill();
                proof {
                    if coupledf {
                        let sf = views::<T>(self.stack@).push(h@);
                        assert(sf.len() == views::<T>(self.stack@).len() + 1);
                        assert(sf.last() == h@);
                        assert forall|i: int|
                            0 <= i < views::<T>(self.stack@).len() implies sf[i] == views::<T>(
                            self.stack@,
                        )[i] by {}
                        assert(observer_coupled::<T>(self.base, sf));
                    }
                    assert(h@ == doubled::<T>(sv, d));
                    // the appended block keeps the total below the final size
                    lemma_mod_pow2_step(m, d);
                    assert(m % pow2(d + 1) <= m) by {
                        lemma_pow2_pos(d + 1);
                        vstd::arithmetic::div_mod::lemma_mod_decreases(m, pow2(d + 1));
                    }
                }
                let new_count = self.leaf_count + step;
                // count the trailing zero bits of the new count
                let mut b = new_count;
                let mut tzc: usize = 0;
                proof {
                    lemma2_to64();
                    assert(new_count * pow2(0) == new_count) by (nonlinear_arith)
                        requires
                            pow2(0) == 1,
                    ;
                }
                while b % 2 == 0
                    invariant
                        b > 0,
                        b * pow2(tzc as nat) == new_count,
                        new_count > 0,
                    decreases b,
                {
                    proof {
                        lemma_pow2_unfold((tzc + 1) as nat);
                        assert((b / 2) * pow2((tzc + 1) as nat) == b * pow2(tzc as nat) && b / 2
                            >= 1) by (nonlinear_arith)
                            requires
                                b % 2 == 0,
                                b > 0,
                                pow2((tzc + 1) as nat) == 2 * pow2(tzc as nat),
                        ;
                        assert(pow2((tzc + 1) as nat) <= new_count) by (nonlinear_arith)
                            requires
                                (b / 2) * pow2((tzc + 1) as nat) == new_count,
                                b / 2 >= 1,
                                pow2((tzc + 1) as nat) >= 0,
                        ;
                        lemma_pow2_gt_exp((tzc + 1) as nat);
                    }
                    b = b / 2;
                    tzc = tzc + 1;
                }
                proof {
                    lemma_tz_mul_pow2(b as nat, tzc as nat);
                    assert(tzc == tz(new_count as nat));
                    // the new count is still a multiple of pow2(d), so tzc >= d
                    vstd::arithmetic::div_mod::lemma_add_mod_noop(
                        self.leaf_count as int,
                        p as int,
                        p as int,
                    );
                    vstd::arithmetic::div_mod::lemma_mod_self_0(p as int);
                    vstd::arithmetic::div_mod::lemma_small_mod(0, p);
                    assert(self.leaf_count as int % (p as int) == 0);
                    assert(new_count as nat % p == 0);
                    lemma_tz_of_multiple(new_count as nat, d);
                    assert(tzc >= fill_depth);
                    lemma_spine_extend_pow2::<T>(self.leaves@, sv, d);
                }
                let pops = tzc - fill_depth;
                let ghost cur = self.leaves@;
                let ghost s_cur = spine::<T>(cur);
                match self.merge_push(h, pops) {
                    Ok(()) => {},
                    Err(e) => {
                        return Err(e);
                    },
                }
                self.leaf_count = new_count;
                self.leaves = Ghost(cur + Seq::new(p, |i: int| sv));
                proof {
                    assert(views::<T>(self.stack@) == spine::<T>(self.leaves@));
                    assert(self.leaves@ =~= l0 + Seq::new((m % pow2(d + 1)) as nat, |i: int| sv));
                    if coupledf {
                        assert(observer_coupled::<T>(self.base, views::<T>(self.stack@)));
                    }
                }
            } else {
                proof {
                    lemma_mod_pow2_step(m, d);
                }
            }
            proof {
                // the block size doubles without overflowing
                lemma_pow2_unfold(d + 1);
                if n + m == m {
                    // an empty folder fills with a single sentinel leaf
                    assert(n == 0);
                    assert(next_pow2_exp(0) == 0);
                    assert(pow2(0) == 1);
                    assert(m <= 1);
                    lemma_pow2_gt_exp(d);
                    assert(d == 0);
                } else {
                    assert(p < pow2(kk));
                    if d + 1 > kk {
                        assert(d >= kk);
                        if d > kk {
                            lemma_pow2_strictly_increases(kk, d);
                        }
                        assert(false);
                    }
                    if d + 1 < kk {
                        lemma_pow2_strictly_increases(d + 1, kk);
                    }
                    assert(pow2(d + 1) <= pow2(kk));
                }
                // halving the remaining bits steps the depth up by one
                vstd::arithmetic::div_mod::lemma_div_denominator(m as int, p as int, 2);
                assert(p * 2 == pow2(d + 1)) by (nonlinear_arith)
                    requires
                        pow2(d + 1) == 2 * p,
                ;
                lemma_pow2_gt_exp(d);
            }
            fill_count = fill_count / 2;
            fill_depth = fill_depth + 1;
            step = step * 2;
        }
        proof {
            let d = fill_depth as nat;
            lemma_pow2_pos(d);
            assert(m < pow2(d)) by (nonlinear_arith)
                requires
                    m / pow2(d) == 0,
                    pow2(d) > 0,
                    m >= 0,
                ;
            lemma_mod_pow2_small(m, d);
            assert(self.leaves@ == l0 + Seq::new(m, |i: int| sv));
        }
        Ok(filled)
    }

    /// Fold the stack from its top into the root: `None` if no leaf was
    /// ever pushed, else the Merkle root over all leaves pushed so far.
    /// The root is pushed back onto the stack, so a second call returns
    /// the same root.
    pub fn result(&mut self) -> (r: Result<Option<T::Target>, Error>)
        requires
            old(self).wf() || old(self).finalized(),
        ensures
            final(self).leaves() == old(self).leaves(),
            old(self).leaves().len() == 0 ==> (r matches Ok(o) && o is None && final(self).wf()),
            old(self).leaves().len() >= 1 ==> (r matches Ok(o) && o matches Some(root)
                && root@ == merkle_root::<T>(old(self).leaves()) && final(self).finalized()),
            // draining folds; the backend's observation state is untouched
            final(self).spec_base().fill_mode() == old(self).spec_base().fill_mode(),
            final(self).spec_base().recorded_leaf() == old(self).spec_base().recorded_leaf(),
            final(self).spec_base().tracked_index() == old(self).spec_base().tracked_index(),
            final(self).spec_base().leaves_seen() == old(self).spec_base().leaves_seen(),
            // a coupled observer's record folds up with the drain: at the
            // end it holds the root
            (T::observing() && !old(self).spec_base().fill_mode() && old(self).wf()
                && observer_coupled::<T>(old(self).spec_base(), spine::<T>(old(self).leaves())))
                ==> (match final(self).spec_base().target_depth() {
                None => true,
                Some(tsi) => final(self).spec_base().recorded_fold() == Some(
                    merkle_root::<T>(old(self).leaves()),
                ),
            }),
            (T::observing() && !old(self).spec_base().fill_mode()) ==> (final(self).spec_base().target_depth() is Some <==> old(self).spec_base().target_depth() is Some),
    {
        let ghost l = self.leaves@;
        let ghost s = views::<T>(self.stack@);
        let ghost coupled0 = T::observing() && !self.base.fill_mode() && self.wf()
            && observer_coupled::<T>(self.base, spine::<T>(l));
        proof {
            if self.wf() {
                lemma_spine_popcount::<T>(l);
                if l.len() > 0 {
                    lemma_popcount_pos(l.len());
                }
            }
        }
        if self.stack.len() == 0 {
            return Ok(None);
        }
        proof {
            assert(l.len() >= 1);
            if self.finalized() {
                assert(root_of_spine::<T>(s) == merkle_root::<T>(l));
            }
        }
        let mut root = self.stack.pop().unwrap();
        proof {
            assert(root@ == s.last());
            assert(s.skip(s.len() - 1) =~= seq![s.last()]);
            assert(views::<T>(self.stack@) =~= s.take(s.len() - 1));
            if coupled0 {
                assert(views::<T>(self.stack@).push(root@) =~= s);
            }
        }
        while self.stack.len() > 0
            invariant
                self.stack@.len() <= s.len() - 1,
                views::<T>(self.stack@) == s.take(self.stack@.len() as int),
                root@ == root_of_spine::<T>(s.skip(self.stack@.len() as int)),
                s.len() >= 1,
                self.leaf_count == old(self).leaf_count,
                self.leaves@ == l,
                self.base.fill_mode() == old(self).base.fill_mode(),
                self.base.recorded_leaf() == old(self).base.recorded_leaf(),
                self.base.tracked_index() == old(self).base.tracked_index(),
                self.base.leaves_seen() == old(self).base.leaves_seen(),
                coupled0 ==> observer_coupled::<T>(
                    self.base,
                    views::<T>(self.stack@).push(root@),
                ),
                coupled0 == (T::observing() && !old(self).spec_base().fill_mode() && old(self).wf() && observer_coupled::<T>(old(self).spec_base(), spine::<T>(l))),
                (T::observing() && !old(self).spec_base().fill_mode()) ==> (self.base.target_depth() is Some <==> old(self).spec_base().target_depth() is Some),
            decreases self.stack@.len(),
        {
            let ghost i = self.stack@.len() as int;
            let ghost cur = views::<T>(self.stack@);
            let left = self.stack.pop().unwrap();
            proof {
                assert(left@ == cur.last());
                assert(cur.last() == s[i - 1]);
                assert(views::<T>(self.stack@) =~= s.take(i - 1));
            }
            let ghost hpre = root@;
            let ghost bpre = self.base;
            let folded = match self.base.fold(&left, &root) {
                Ok(f) => f,
                Err(e) => {
                    return Err(e);
                },
            };
            root = folded;
            proof {
                if coupled0 {
                    let sf_pre = cur.push(hpre);
                    let sf_post = views::<T>(self.stack@).push(root@);
                    assert(sf_post =~= cur.drop_last().push(root@));
                    assert(sf_pre.len() == cur.len() + 1);
                    assert(sf_pre.last() == hpre);
                    assert(cur.len() >= 1);
                    assert(sf_pre[cur.len() - 1] == cur.last());
                    assert(root@ == T::node_hash(left@, hpre));
                    match bpre.target_depth() {
                        None => {},
                        Some(tsi) => {
                            if tsi == bpre.depth() {
                                assert(bpre.recorded_fold() matches Some(v) && v == sf_pre[tsi
                                    - 1]);
                                assert(sf_pre[tsi - 1] == hpre);
                                assert(self.base.recorded_fold() == Some(
                                    T::node_hash(left@, hpre),
                                ));
                                assert(self.base.target_depth() == Some((tsi - 1) as nat));
                                assert(sf_post[cur.len() - 1] == root@);
                            } else if tsi == bpre.depth() - 1 {
                                assert(bpre.recorded_fold() matches Some(v) && v == sf_pre[tsi
                                    - 1]);
                                assert(sf_pre[tsi - 1] == cur.last());
                                assert(self.base.recorded_fold() == Some(
                                    T::node_hash(cur.last(), hpre),
                                ));
                                assert(sf_post[tsi - 1] == root@);
                            } else {
                                assert(tsi < cur.len());
                                assert(sf_post[tsi - 1] == sf_pre[tsi - 1]);
                            }
                        },
                    }
                    assert(observer_coupled::<T>(self.base, sf_post));
                }
            }
            proof {
                let rest = s.skip(i - 1);
                assert(rest.len() >= 2);
                assert(rest[0] == s[i - 1]);
                assert(rest.drop_first() =~= s.skip(i));
                assert(root_of_spine::<T>(rest) == T::node_hash(s[i - 1], root_of_spine::<T>(
                    s.skip(i),
                )));
            }
        }
        proof {
            assert(s.skip(0) =~= s);
            assert(root@ == root_of_spine::<T>(s));
            assert(root@ == merkle_root::<T>(l));
        }
        let keep = T::dup(&root);
        let ghost pre = views::<T>(self.stack@);
        self.stack.push(keep);
        proof {
            assert(views::<T>(self.stack@) =~= pre.push(root@));
            assert(pre =~= Seq::<HashOf<T>>::empty());
            assert(views::<T>(self.stack@) =~= seq![merkle_root::<T>(l)]);
        }
        Ok(Some(root))
    }

    /// Build a whole tree in one call: push every leaf in order, pad with
    /// `fill_input` if one is given, and return the root (`None` for an
    /// empty tree) together with the backend.
    pub fn fold(base: T, leaves: &Vec<T::Leaf>, fill_input: Option<T::Leaf>) -> (r: Result<
        (Option<T::Target>, T),
        Error,
    >)
        requires
            leaves@.len() <= usize::MAX / 2 + 1,
        ensures
            r matches Ok(p) && ({
                let full = folded_leaves::<T>(leaves@, fill_input);
                &&& (full.len() == 0 ==> p.0 is None)
                &&& (full.len() >= 1 ==> (p.0 matches Some(root) && root@ == merkle_root::<T>(
                    full,
                )))
            }),
    {
        let ghost full = folded_leaves::<T>(leaves@, fill_input);
        let mut inst = Self::new(base);
        match inst.extend(leaves) {
            Ok(()) => {},
            Err(e) => {
                return Err(e);
            },
        }
        proof {
            assert(inst.leaves() =~= leaf_hashes::<T>(leaves@));
        }
        match fill_input {
            Some(s) => {
                match inst.fill(s) {
                    Ok(_) => {},
                    Err(e) => {
                        return Err(e);
                    },
                }
            },
            None => {},
        }
        proof {
            assert(inst.leaves() == full);
        }
        let root = match inst.result() {
            Ok(o) => o,
            Err(e) => {
                return Err(e);
            },
        };
        Ok((root, inst.base))
    }
}

/// The leaf hashes a `fold` call builds its tree over: every given leaf,
/// then, if a fill leaf is given, copies of it up to the next power of two.
pub open spec fn folded_leaves<T: TreeFold>(
    leaves: Seq<T::Leaf>,
    fill_input: Option<T::Leaf>,
) -> Seq<HashOf<T>> {
    let lh = leaf_hashes::<T>(leaves);
    match fill_input {
        Some(s) => lh + Seq::new(
            (next_pow2(leaves.len()) - leaves.len()) as nat,
            |i: int| T::leaf_hash(s@),
        ),
        None => lh,
    }
}

/// Folding a leaf hash with a list of sibling hashes, bottom up: each
/// pair is the sibling and whether it stands on the left.
pub open spec fn fold_sibling_chain<T: TreeFold>(
    leaf: HashOf<T>,
    joins: Seq<(bool, HashOf<T>)>,
) -> HashOf<T>
    decreases joins.len(),
{
    if joins.len() == 0 {
        leaf
    } else {
        let prev = fold_sibling_chain::<T>(leaf, joins.drop_last());
        if joins.last().0 {
            T::node_hash(joins.last().1, prev)
        } else {
            T::node_hash(prev, joins.last().1)
        }
    }
}

/// The root of a perfect tree: pair up until one hash remains.
pub open spec fn perfect_root<T: TreeFold>(l: Seq<HashOf<T>>) -> HashOf<T>
    recommends
        l.len() >= 1,
    decreases l.len(),
{
    if l.len() <= 1 {
        l[0]
    } else {
        perfect_root::<T>(pair_up::<T>(l))
    }
}

/// The sibling path of leaf `i` in a perfect tree over `l`.
pub open spec fn perfect_path<T: TreeFold>(l: Seq<HashOf<T>>, i: int) -> Seq<(bool, HashOf<T>)>
    recommends
        0 <= i < l.len(),
    decreases l.len(),
{
    if l.len() <= 1 {
        Seq::empty()
    } else {
        let sib = if i % 2 == 0 {
            (false, l[i + 1])
        } else {
            (true, l[i - 1])
        };
        seq![sib] + perfect_path::<T>(pair_up::<T>(l), i / 2)
    }
}

/// The sibling path of leaf `i` in the spine-shaped tree over `l`: the
/// path inside the perfect subtree the leaf falls into, then one join
/// for the rest of the tree on the other side.
pub open spec fn merkle_path<T: TreeFold>(l: Seq<HashOf<T>>, i: int) -> Seq<(bool, HashOf<T>)>
    recommends
        0 <= i < l.len(),
    decreases l.len(),
{
    if l.len() <= 1 {
        Seq::empty()
    } else {
        let p = pow2_floor(l.len()) as int;
        if p >= l.len() {
            perfect_path::<T>(l, i)
        } else if i < p {
            perfect_path::<T>(l.take(p), i) + seq![(false, merkle_root::<T>(l.skip(p)))]
        } else if p >= 1 {
            merkle_path::<T>(l.skip(p), i - p) + seq![(true, perfect_root::<T>(l.take(p)))]
        } else {
            Seq::empty()
        }
    }
}

/// Folding distributes over concatenation of join lists.
proof fn lemma_fold_chain_concat<T: TreeFold>(
    leaf: HashOf<T>,
    s1: Seq<(bool, HashOf<T>)>,
    s2: Seq<(bool, HashOf<T>)>,
)
    ensures
        fold_sibling_chain::<T>(leaf, s1 + s2) == fold_sibling_chain::<T>(
            fold_sibling_chain::<T>(leaf, s1),
            s2,
        ),
    decreases s2.len(),
{
    if s2.len() == 0 {
        assert(s1 + s2 =~= s1);
    } else {
        assert((s1 + s2).drop_last() =~= s1 + s2.drop_last());
        assert((s1 + s2).last() == s2.last());
        lemma_fold_chain_concat::<T>(leaf, s1, s2.drop_last());
    }
}

/// In a perfect tree, folding a leaf with its sibling path yields the
/// perfect root.
proof fn lemma_perfect_path_sound<T: TreeFold>(l: Seq<HashOf<T>>, i: int, k: nat)
    requires
        l.len() == pow2(k),
        0 <= i < l.len(),
    ensures
        fold_sibling_chain::<T>(l[i], perfect_path::<T>(l, i)) == perfect_root::<T>(l),
    decreases k,
{
    if k == 0 {
        lemma2_to64();
    } else {
        lemma_pow2_unfold(k);
        lemma_pow2_pos((k - 1) as nat);
        assert(l.len() == 2 * pow2((k - 1) as nat));
        assert(l.len() >= 2);
        let l2 = pair_up::<T>(l);
        assert(l2.len() == pow2((k - 1) as nat));
        let sib = if i % 2 == 0 {
            (false, l[i + 1])
        } else {
            (true, l[i - 1])
        };
        assert(perfect_path::<T>(l, i) == seq![sib] + perfect_path::<T>(l2, i / 2));
        lemma_fold_chain_concat::<T>(l[i], seq![sib], perfect_path::<T>(l2, i / 2));
        assert(seq![sib].drop_last() =~= Seq::<(bool, HashOf<T>)>::empty());
        assert(seq![sib].last() == sib);
        let joined = fold_sibling_chain::<T>(l[i], seq![sib]);
        assert(fold_sibling_chain::<T>(l[i], seq![sib].drop_last()) == l[i]);
        if i % 2 == 0 {
            assert(i + 1 < l.len());
            assert(joined == T::node_hash(l[i], l[i + 1]));
            assert(l2[i / 2] == T::node_hash(l[2 * (i / 2)], l[2 * (i / 2) + 1]));
            assert(2 * (i / 2) == i);
        } else {
            assert(joined == T::node_hash(l[i - 1], l[i]));
            assert(l2[i / 2] == T::node_hash(l[2 * (i / 2)], l[2 * (i / 2) + 1]));
            assert(2 * (i / 2) == i - 1);
        }
        assert(joined == l2[i / 2]);
        assert(0 <= i / 2 < l2.len());
        lemma_perfect_path_sound::<T>(l2, i / 2, (k - 1) as nat);
    }
}

/// The spine of a sequence whose length has top bit `pow2(k)`: the root
/// of the perfect prefix of that size, then the spine of the rest.
proof fn lemma_spine_split<T: TreeFold>(l: Seq<HashOf<T>>, k: nat)
    requires
        pow2(k) <= l.len() < 2 * pow2(k),
    ensures
        spine::<T>(l) == seq![perfect_root::<T>(l.take(pow2(k) as int))] + spine::<T>(
            l.skip(pow2(k) as int),
        ),
    decreases l.len(),
{
    lemma_pow2_pos(k);
    let p = pow2(k) as int;
    let rest = l.len() - p;
    if rest == 0 {
        if k == 0 {
            lemma2_to64();
            assert(l.len() == 1);
            assert(l.take(1) =~= l);
            assert(l.skip(1) =~= Seq::<HashOf<T>>::empty());
            assert(spine::<T>(l) == spine::<T>(l.drop_last()).push(l.last()));
            assert(l.drop_last() =~= Seq::<HashOf<T>>::empty());
            assert(spine::<T>(l) =~= seq![perfect_root::<T>(l)] + spine::<T>(l.skip(1)));
        } else {
            lemma_pow2_unfold(k);
            lemma_pow2_pos((k - 1) as nat);
            assert(l.len() % 2 == 0) by (nonlinear_arith)
                requires
                    l.len() == 2 * pow2((k - 1) as nat),
            ;
            let l2 = pair_up::<T>(l);
            assert(l2.len() == pow2((k - 1) as nat));
            lemma_spine_split::<T>(l2, (k - 1) as nat);
            assert(l2.take(pow2((k - 1) as nat) as int) =~= l2);
            assert(l2.skip(pow2((k - 1) as nat) as int) =~= Seq::<HashOf<T>>::empty());
            assert(l.take(p) =~= l);
            assert(l.skip(p) =~= Seq::<HashOf<T>>::empty());
            assert(perfect_root::<T>(l) == perfect_root::<T>(l2));
        }
    } else if rest % 2 == 1 {
        // rest >= 1 forces k >= 1, so pow2(k) is even and the length odd
        assert(k >= 1) by {
            if k == 0 {
                lemma2_to64();
                assert(l.len() < 2);
                assert(rest == 0);
            }
        }
        lemma_pow2_unfold(k);
        lemma_pow2_pos((k - 1) as nat);
        assert(pow2(k) % 2 == 0 && l.len() % 2 == 1) by (nonlinear_arith)
            requires
                pow2(k) == 2 * pow2((k - 1) as nat),
                l.len() == pow2(k) + rest,
                rest % 2 == 1,
        ;
        let ld = l.drop_last();
        assert(pow2(k) <= ld.len() < 2 * pow2(k));
        lemma_spine_split::<T>(ld, k);
        assert(ld.take(p) =~= l.take(p));
        assert(ld.skip(p) =~= l.skip(p).drop_last());
        assert(spine::<T>(l) == spine::<T>(ld).push(l.last()));
        let r = l.skip(p);
        assert(r.len() % 2 == 1);
        assert(spine::<T>(r) == spine::<T>(r.drop_last()).push(r.last()));
        assert(r.last() == l.last());
        assert((seq![perfect_root::<T>(l.take(p))] + spine::<T>(r.drop_last())).push(l.last())
            =~= seq![perfect_root::<T>(l.take(p))] + spine::<T>(r));
    } else {
        assert(k >= 1) by {
            if k == 0 {
                lemma2_to64();
                assert(rest == l.len() - 1 < 1);
            }
        }
        lemma_pow2_unfold(k);
        lemma_pow2_pos((k - 1) as nat);
        assert(l.len() % 2 == 0) by (nonlinear_arith)
            requires
                l.len() == pow2(k) + rest,
                pow2(k) == 2 * pow2((k - 1) as nat),
                rest % 2 == 0,
        ;
        let l2 = pair_up::<T>(l);
        let p1 = pow2((k - 1) as nat) as int;
        assert(l2.len() == l.len() / 2);
        assert(pow2((k - 1) as nat) <= l2.len() < 2 * pow2((k - 1) as nat)) by (nonlinear_arith)
            requires
                l2.len() == l.len() / 2,
                pow2(k) <= l.len() < 2 * pow2(k),
                pow2(k) == 2 * pow2((k - 1) as nat),
                l.len() % 2 == 0,
        ;
        lemma_spine_split::<T>(l2, (k - 1) as nat);
        // the pairing respects the split point
        assert(l2.take(p1) =~= pair_up::<T>(l.take(p)));
        assert(l2.skip(p1) =~= pair_up::<T>(l.skip(p)));
        assert(perfect_root::<T>(l.take(p)) == perfect_root::<T>(pair_up::<T>(l.take(p))));
        let r = l.skip(p);
        assert(r.len() % 2 == 0 && r.len() > 0);
        assert(spine::<T>(r) == spine::<T>(pair_up::<T>(r)));
        assert(spine::<T>(l) == spine::<T>(l2));
    }
}

/// Path soundness: folding the leaf at index `i` with its sibling path
/// yields the tree's root, for every tree the folder can build.
pub proof fn lemma_path_soundness<T: TreeFold>(l: Seq<HashOf<T>>, i: int)
    requires
        0 <= i < l.len(),
    ensures
        fold_sibling_chain::<T>(l[i], merkle_path::<T>(l, i)) == merkle_root::<T>(l),
    decreases l.len(),
{
    lemma_pow2_floor(l.len());
    let p = pow2_floor(l.len()) as int;
    let k = pow2_floor_exp(l.len());
    if l.len() == 1 {
        assert(merkle_path::<T>(l, i) == Seq::<(bool, HashOf<T>)>::empty());
        lemma_spine_split::<T>(l, 0);
        assert(l.take(1) =~= l);
        assert(l.skip(1) =~= Seq::<HashOf<T>>::empty());
        assert(spine::<T>(l.skip(1)) =~= Seq::<HashOf<T>>::empty());
        assert(spine::<T>(l) =~= seq![perfect_root::<T>(l)]);
        assert(root_of_spine::<T>(seq![perfect_root::<T>(l)]) == perfect_root::<T>(l));
        assert(perfect_root::<T>(l) == l[0]);
    } else if p >= l.len() {
        assert(p == l.len());
        lemma_perfect_path_sound::<T>(l, i, k);
        lemma_spine_split::<T>(l, k);
        assert(l.take(p) =~= l);
        assert(l.skip(p) =~= Seq::<HashOf<T>>::empty());
        assert(spine::<T>(l.skip(p)) =~= Seq::<HashOf<T>>::empty());
        assert(spine::<T>(l) =~= seq![perfect_root::<T>(l)]);
        assert(root_of_spine::<T>(seq![perfect_root::<T>(l)]) == perfect_root::<T>(l));
        assert(merkle_path::<T>(l, i) == perfect_path::<T>(l, i));
    } else {
        lemma_spine_split::<T>(l, k);
        let rp = perfect_root::<T>(l.take(p));
        let r = l.skip(p);
        let s = spine::<T>(l);
        assert(s == seq![rp] + spine::<T>(r));
        // the rest is non-empty, so its spine is too
        lemma_spine_popcount::<T>(r);
        lemma_popcount_pos(r.len());
        assert(s.len() >= 2);
        assert(s[0] == rp);
        assert(s.drop_first() =~= spine::<T>(r));
        assert(merkle_root::<T>(l) == T::node_hash(rp, root_of_spine::<T>(spine::<T>(r))));
        if i < p {
            lemma_perfect_path_sound::<T>(l.take(p), i, k);
            assert(l.take(p)[i] == l[i]);
            let tail = seq![(false, merkle_root::<T>(r))];
            assert(merkle_path::<T>(l, i) == perfect_path::<T>(l.take(p), i) + tail);
            lemma_fold_chain_concat::<T>(l[i], perfect_path::<T>(l.take(p), i), tail);
            assert(tail.drop_last() =~= Seq::<(bool, HashOf<T>)>::empty());
            assert(tail.last() == (false, merkle_root::<T>(r)));
            assert(fold_sibling_chain::<T>(rp, tail.drop_last()) == rp);
            assert(fold_sibling_chain::<T>(rp, tail) == T::node_hash(rp, merkle_root::<T>(r)));
        } else {
            lemma_path_soundness::<T>(r, i - p);
            assert(r[i - p] == l[i]);
            let tail = seq![(true, rp)];
            assert(merkle_path::<T>(l, i) == merkle_path::<T>(r, i - p) + tail);
            lemma_fold_chain_concat::<T>(l[i], merkle_path::<T>(r, i - p), tail);
            assert(tail.drop_last() =~= Seq::<(bool, HashOf<T>)>::empty());
            assert(tail.last() == (true, rp));
            assert(fold_sibling_chain::<T>(merkle_root::<T>(r), tail.drop_last())
                == merkle_root::<T>(r));
            assert(fold_sibling_chain::<T>(merkle_root::<T>(r), tail) == T::node_hash(
                rp,
                merkle_root::<T>(r),
            ));
        }
    }
}

/// The concatenating reference backend: a leaf is its own hash and a fold
/// brackets its children, so every hash value spells out the shape of the
/// tree it roots.  It records nothing; the flag only acknowledges the
/// fill window the backend contract describes.
pub struct TestFold {
    fill: bool,
}

impl TestFold {
    pub fn new() -> (r: Self)
        ensures
            !r.fill_mode(),
    {
        TestFold { fill: false }
    }
}

impl TreeFold for TestFold {
    type Leaf = Vec<u8>;

    type Target = Vec<u8>;

    open spec fn leaf_hash(leaf: Seq<u8>) -> Seq<u8> {
        leaf
    }

    open spec fn node_hash(a: Seq<u8>, b: Seq<u8>) -> Seq<u8> {
        seq![91u8] + a + seq![44u8] + b + seq![93u8]
    }

    fn input(&mut self, leaf: &Vec<u8>) -> (r: Result<Vec<u8>, Error>) {
        Ok(Self::dup(leaf))
    }

    fn fold(&mut self, a: &Vec<u8>, b: &Vec<u8>) -> (r: Result<Vec<u8>, Error>) {
        let mut out: Vec<u8> = Vec::new();
        out.push(91u8);
        let mut i: usize = 0;
        while i < a.len()
            invariant
                i <= a@.len(),
                out@ == seq![91u8] + a@.take(i as int),
            decreases a@.len() - i,
        {
            out.push(a[i]);
            i = i + 1;
            proof {
                assert(seq![91u8] + a@.take(i as int) =~= (seq![91u8] + a@.take(i - 1)).push(
                    a@[i - 1],
                ));
            }
        }
        proof {
            assert(a@.take(a@.len() as int) =~= a@);
        }
        out.push(44u8);
        let ghost mid = seq![91u8] + a@ + seq![44u8];
        proof {
            assert(out@ =~= mid);
        }
        let mut j: usize = 0;
        while j < b.len()
            invariant
                j <= b@.len(),
                out@ == mid + b@.take(j as int),
                mid == seq![91u8] + a@ + seq![44u8],
            decreases b@.len() - j,
        {
            out.push(b[j]);
            j = j + 1;
            proof {
                assert(mid + b@.take(j as int) =~= (mid + b@.take(j - 1)).push(b@[j - 1]));
            }
        }
        proof {
            assert(b@.take(b@.len() as int) =~= b@);
        }
        out.push(93u8);
        proof {
            assert(out@ =~= Self::node_hash(a@, b@));
        }
        Ok(out)
    }

    fn dup(t: &Vec<u8>) -> (r: Vec<u8>) {
        crate::bytes::copy_bytes(t)
    }

    fn start_fill(&mut self) {
        self.fill = true;
    }

    fn end_fill(&mut self) {
        self.fill = false;
    }

    closed spec fn fill_mode(&self) -> bool {
        self.fill
    }

    open spec fn recorded_leaf(&self) -> Option<Seq<u8>> {
        None
    }

    open spec fn tracked_index(&self) -> Option<nat> {
        None
    }

    open spec fn leaves_seen(&self) -> nat {
        0
    }

    open spec fn observing() -> bool {
        false
    }

    open spec fn depth(&self) -> nat {
        0
    }

    open spec fn target_depth(&self) -> Option<nat> {
        None
    }

    open spec fn recorded_fold(&self) -> Option<Seq<u8>> {
        None
    }
}

} // verus!
