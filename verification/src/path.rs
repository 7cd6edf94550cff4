//! Inclusion paths and the tracker that records them.
//!
//! The tracker decorates any hash backend: it watches the `input` and
//! `fold` calls the folder makes and keeps the sibling hashes one chosen
//! leaf meets on its way up.  Synthetic calls between `start_fill` and
//! `end_fill` are ignored, except that the merged sentinel subtree counts
//! as one more entry on the folder's stack.

use vstd::prelude::*;
use crate::error::Error;
use crate::tree::{HashOf, TreeFold};

verus! {

/// One step of an inclusion path: a sibling hash and the side on which
/// it joins.
#[derive(Clone, Debug, PartialEq, Eq, PartialOrd, Ord)]
pub enum PathJoin<T> {
    Left(T),
    Right(T),
}

/// An inclusion path: the tracked leaf's hash and, bottom up, the
/// sibling hashes that re-derive the root.
#[derive(Clone, Debug, PartialEq, Eq, PartialOrd, Ord)]
pub struct Path<T: Clone> {
    pub leaf: T,
    pub join: Vec<PathJoin<T>>,
}

/// What folding a path through backend `B` yields: the leaf hash folded
/// with each sibling in order, on the recorded side.
pub open spec fn spec_path_fold<B: TreeFold>(
    leaf: HashOf<B>,
    joins: Seq<PathJoin<B::Target>>,
) -> HashOf<B>
    decreases joins.len(),
{
    if joins.len() == 0 {
        leaf
    } else {
        let prev = spec_path_fold::<B>(leaf, joins.drop_last());
        match joins.last() {
            PathJoin::Left(l) => B::node_hash(l@, prev),
            PathJoin::Right(r) => B::node_hash(prev, r@),
        }
    }
}

/// The view of a join list: each sibling hash, and whether it stands on
/// the left.
pub open spec fn joins_view<B: TreeFold>(joins: Seq<PathJoin<B::Target>>) -> Seq<
    (bool, HashOf<B>),
> {
    Seq::new(
        joins.len(),
        |i: int|
            match joins[i] {
                PathJoin::Left(l) => (true, l@),
                PathJoin::Right(r) => (false, r@),
            },
    )
}

/// Folding a path is folding the sibling chain of its view.
pub proof fn lemma_path_fold_is_chain<B: TreeFold>(
    leaf: HashOf<B>,
    joins: Seq<PathJoin<B::Target>>,
)
    ensures
        spec_path_fold::<B>(leaf, joins) == crate::tree::fold_sibling_chain::<B>(
            leaf,
            joins_view::<B>(joins),
        ),
    decreases joins.len(),
{
    if joins.len() > 0 {
        lemma_path_fold_is_chain::<B>(leaf, joins.drop_last());
        assert(joins_view::<B>(joins).drop_last() =~= joins_view::<B>(joins.drop_last()));
        assert(joins_view::<B>(joins).last() == joins_view::<B>(joins)[joins.len() - 1]);
    }
}

/// Path soundness, at the level of a concrete `Path` value: a path whose
/// leaf is the hash of leaf `i` and whose joins spell the canonical
/// sibling path of `i` folds back to the tree's root.
pub proof fn lemma_path_verifies<B: TreeFold>(
    l: Seq<HashOf<B>>,
    i: int,
    leaf: HashOf<B>,
    joins: Seq<PathJoin<B::Target>>,
)
    requires
        0 <= i < l.len(),
        leaf == l[i],
        joins_view::<B>(joins) == crate::tree::merkle_path::<B>(l, i),
    ensures
        spec_path_fold::<B>(leaf, joins) == crate::tree::merkle_root::<B>(l),
{
    lemma_path_fold_is_chain::<B>(leaf, joins);
    crate::tree::lemma_path_soundness::<B>(l, i);
}

impl<T: Clone + View> Path<T> {
    pub fn new(leaf: T, join: Vec<PathJoin<T>>) -> (r: Self)
        ensures
            r.leaf == leaf,
            r.join == join,
    {
        Path { leaf, join }
    }

    /// The number of hashes held: the leaf and one per join step.
    pub fn len(&self) -> (r: usize)
        requires
            self.join@.len() < usize::MAX,
        ensures
            r == 1 + self.join@.len(),
    {
        1 + self.join.len()
    }

    pub fn join_left(&mut self, result: T)
        ensures
            final(self).leaf == old(self).leaf,
            final(self).join@ == old(self).join@.push(PathJoin::Left(result)),
    {
        self.join.push(PathJoin::Left(result))
    }

    pub fn join_right(&mut self, result: T)
        ensures
            final(self).leaf == old(self).leaf,
            final(self).join@ == old(self).join@.push(PathJoin::Right(result)),
    {
        self.join.push(PathJoin::Right(result))
    }

    /// Re-derive the root: fold the leaf with every sibling in order,
    /// using `base` for the hashing.
    pub fn fold<B: TreeFold<Target = T>>(self, base: &mut B) -> (r: Result<T, Error>)
        ensures
            r matches Ok(v) && v@ == spec_path_fold::<B>(self.leaf@, self.join@),
    {
        let ghost leaf0 = self.leaf@;
        let ghost joins = self.join@;
        let mut result = self.leaf;
        let join = self.join;
        let mut i: usize = 0;
        while i < join.len()
            invariant
                i <= joins.len(),
                join@ == joins,
                result@ == spec_path_fold::<B>(leaf0, joins.take(i as int)),
            decreases joins.len() - i,
        {
            let folded = match &join[i] {
                PathJoin::Left(l) => {
                    match base.fold(l, &result) {
                        Ok(h) => h,
                        Err(e) => {
                            return Err(e);
                        },
                    }
                },
                PathJoin::Right(r) => {
                    match base.fold(&result, r) {
                        Ok(h) => h,
                        Err(e) => {
                            return Err(e);
                        },
                    }
                },
            };
            result = folded;
            i = i + 1;
            proof {
                assert(joins.take(i as int).drop_last() =~= joins.take(i - 1));
                assert(joins.take(i as int).last() == joins[i - 1]);
            }
        }
        proof {
            assert(joins.take(joins.len() as int) =~= joins);
        }
        Ok(result)
    }
}

/// A decorator over a hash backend that records one leaf's inclusion
/// path.
///
/// `input_index` counts the real leaves seen, `stack_index` tracks the
/// folder's stack depth (one up per real `input`, one down per real
/// `fold`), `track_input_index` is the leaf the caller asked to trace,
/// and `track_stack_index`, once that leaf has been hashed, is the depth
/// at which the next fold involves the evolving path hash.  The counters
/// saturate instead of wrapping, so no call can panic; a folder never
/// drives them near the limits.
///
/// Every call's effect on this state is pinned by its contract, call by
/// call, and the backend trait's observation hooks carry the record's
/// presence, its leaf, and what it folds to through the folder's generic
/// contracts: over a whole build the record always folds to the stack
/// entry holding the observed leaf, and after the final drain to the
/// root itself.  Only the identity of the sibling list — that `join`
/// spells exactly the canonical sibling path, not merely one that folds
/// to the root — is left to the tests; `lemma_path_verifies` proves the
/// canonical path folds to the root as well.
pub struct PathTracker<T: TreeFold> {
    pub base: T,
    pub input_index: usize,
    pub stack_index: usize,
    pub track_input_index: Option<usize>,
    pub track_stack_index: Option<usize>,
    pub path: Option<Path<T::Target>>,
    pub fill: bool,
}

impl<T: TreeFold> PathTracker<T> {
    pub fn new(base: T, track_input_index: Option<usize>) -> (r: Self)
        ensures
            r.base == base,
            r.input_index == 0,
            r.stack_index == 0,
            r.track_input_index == track_input_index,
            r.track_stack_index is None,
            r.path is None,
            r.fill == false,
    {
        PathTracker {
            base,
            input_index: 0,
            stack_index: 0,
            track_input_index,
            track_stack_index: None,
            path: None,
            fill: false,
        }
    }

    /// The recorded path, by fresh copies of its hashes: the same leaf
    /// hash and join list, view for view, so it folds to the same value.
    pub fn path_result(&self) -> (r: Option<Path<T::Target>>)
        ensures
            r is Some <==> self.path is Some,
            r matches Some(p) ==> (self.path matches Some(q) && p.leaf@ == q.leaf@
                && joins_view::<T>(p.join@) == joins_view::<T>(q.join@) && spec_path_fold::<T>(
                p.leaf@,
                p.join@,
            ) == spec_path_fold::<T>(q.leaf@, q.join@)),
    {
        match &self.path {
            None => None,
            Some(q) => {
                let leaf = T::dup(&q.leaf);
                let mut join: Vec<PathJoin<T::Target>> = Vec::new();
                let mut i: usize = 0;
                while i < q.join.len()
                    invariant
                        i <= q.join@.len(),
                        join@.len() == i,
                        joins_view::<T>(join@) == joins_view::<T>(q.join@).take(i as int),
                        leaf@ == q.leaf@,
                        self.path matches Some(qq) && qq == *q,
                    decreases q.join@.len() - i,
                {
                    let ghost joins_pre = join@;
                    let step = match &q.join[i] {
                        PathJoin::Left(l) => PathJoin::Left(T::dup(l)),
                        PathJoin::Right(r) => PathJoin::Right(T::dup(r)),
                    };
                    join.push(step);
                    i = i + 1;
                    proof {
                        assert(join@.drop_last() =~= joins_pre);
                        assert(joins_view::<T>(join@) =~= joins_view::<T>(joins_pre).push(
                            joins_view::<T>(join@)[i - 1],
                        ));
                        assert(joins_view::<T>(q.join@).take(i as int) =~= joins_view::<T>(
                            q.join@,
                        ).take(i - 1).push(joins_view::<T>(q.join@)[i - 1]));
                    }
                }
                proof {
                    assert(joins_view::<T>(q.join@).take(q.join@.len() as int) =~= joins_view::<
                        T,
                    >(q.join@));
                    lemma_path_fold_is_chain::<T>(leaf@, join@);
                    lemma_path_fold_is_chain::<T>(q.leaf@, q.join@);
                }
                Some(Path { leaf, join })
            },
        }
    }

    /// Trace the leaf with the given index; any previously recorded path
    /// is discarded.
    pub fn track_index(&mut self, index: usize)
        ensures
            final(self).track_input_index == Some(index),
            final(self).track_stack_index is None,
            final(self).path is None,
            final(self).base == old(self).base,
            final(self).input_index == old(self).input_index,
            final(self).stack_index == old(self).stack_index,
            final(self).fill == old(self).fill,
    {
        self.track_input_index = Some(index);
        self.track_stack_index = None;
        self.path = None;
    }

    /// Trace the next leaf to be pushed.
    pub fn track_next(&mut self)
        ensures
            final(self).track_input_index == Some(old(self).input_index),
            final(self).track_stack_index is None,
            final(self).path is None,
            final(self).base == old(self).base,
            final(self).input_index == old(self).input_index,
            final(self).stack_index == old(self).stack_index,
            final(self).fill == old(self).fill,
    {
        let index = self.input_index;
        self.track_index(index)
    }
}

impl<T: TreeFold> TreeFold for PathTracker<T> {
    type Leaf = T::Leaf;

    type Target = T::Target;

    open spec fn leaf_hash(leaf: <T::Leaf as View>::V) -> HashOf<T> {
        T::leaf_hash(leaf)
    }

    open spec fn node_hash(a: HashOf<T>, b: HashOf<T>) -> HashOf<T> {
        T::node_hash(a, b)
    }

    fn input(&mut self, leaf: &T::Leaf) -> (r: Result<T::Target, Error>)
        ensures
            final(self).fill == old(self).fill,
            final(self).track_input_index == old(self).track_input_index,
            old(self).fill ==> (final(self).input_index == old(self).input_index && final(self).stack_index == old(self).stack_index && final(self).track_stack_index == old(self).track_stack_index && final(self).path == old(self).path),
            !old(self).fill ==> ({
                let bumped = if old(self).stack_index < usize::MAX {
                    (old(self).stack_index + 1) as usize
                } else {
                    usize::MAX
                };
                &&& final(self).stack_index == bumped
                &&& final(self).input_index == (if old(self).input_index < usize::MAX {
                    (old(self).input_index + 1) as usize
                } else {
                    usize::MAX
                })
                &&& (old(self).track_input_index == Some(old(self).input_index) ==> (final(self).track_stack_index == Some(bumped) && (final(self).path matches Some(p)
                    && p.leaf@ == T::leaf_hash(leaf@) && p.join@.len() == 0)))
                &&& (old(self).track_input_index != Some(old(self).input_index) ==> (final(self).track_stack_index == old(self).track_stack_index && final(self).path == old(self).path))
            }),
    {
        let h = match self.base.input(leaf) {
            Ok(h) => h,
            Err(e) => {
                return Err(e);
            },
        };
        if !self.fill {
            let next_stack = if self.stack_index < usize::MAX {
                self.stack_index + 1
            } else {
                usize::MAX
            };
            let is_target = match self.track_input_index {
                Some(t) => t == self.input_index,
                None => false,
            };
            if is_target {
                self.path = Some(Path { leaf: T::dup(&h), join: Vec::new() });
                self.track_stack_index = Some(next_stack);
            }
            self.input_index = if self.input_index < usize::MAX {
                self.input_index + 1
            } else {
                usize::MAX
            };
            self.stack_index = next_stack;
        }
        Ok(h)
    }

    fn fold(&mut self, a: &T::Target, b: &T::Target) -> (r: Result<T::Target, Error>)
        ensures
            final(self).fill == old(self).fill,
            final(self).track_input_index == old(self).track_input_index,
            final(self).input_index == old(self).input_index,
            old(self).fill ==> (final(self).stack_index == old(self).stack_index && final(self).track_stack_index == old(self).track_stack_index && final(self).path == old(self).path),
            !old(self).fill ==> final(self).stack_index == (if old(self).stack_index >= 1 {
                (old(self).stack_index - 1) as usize
            } else {
                0
            }),
            !old(self).fill ==> ({
                let osi = old(self).stack_index;
                match old(self).track_stack_index {
                    Some(idx) => {
                        if idx == osi {
                            // the path was the right child: record the left sibling
                            &&& final(self).track_stack_index == Some(
                                (if idx >= 1 {
                                    (idx - 1) as usize
                                } else {
                                    0
                                }),
                            )
                            &&& (old(self).path matches Some(q) ==> (final(self).path matches Some(p) && p.leaf@ == q.leaf@ && joins_view::<T>(p.join@) == joins_view::<T>(
                                q.join@,
                            ).push((true, a@))))
                            &&& (old(self).path is None ==> final(self).path is None)
                        } else if osi >= 1 && idx == osi - 1 {
                            // the path was the left child: record the right sibling
                            &&& final(self).track_stack_index == old(self).track_stack_index
                            &&& (old(self).path matches Some(q) ==> (final(self).path matches Some(p) && p.leaf@ == q.leaf@ && joins_view::<T>(p.join@) == joins_view::<T>(
                                q.join@,
                            ).push((false, b@))))
                            &&& (old(self).path is None ==> final(self).path is None)
                        } else {
                            &&& final(self).track_stack_index == old(self).track_stack_index
                            &&& final(self).path == old(self).path
                        }
                    },
                    None => {
                        &&& final(self).track_stack_index == old(self).track_stack_index
                        &&& final(self).path == old(self).path
                    },
                }
            }),
    {
        let h = match self.base.fold(a, b) {
            Ok(h) => h,
            Err(e) => {
                return Err(e);
            },
        };
        if !self.fill {
            match self.track_stack_index {
                Some(idx) => {
                    if idx == self.stack_index {
                        match &mut self.path {
                            Some(p) => {
                                let ghost pre = p.join@;
                                let ghost leaf0 = p.leaf@;
                                p.join.push(PathJoin::Left(T::dup(a)));
                                proof {
                                    assert(joins_view::<T>(p.join@) =~= joins_view::<T>(
                                        pre,
                                    ).push((true, a@)));
                                    assert(joins_view::<T>(p.join@).drop_last() =~= joins_view::<
                                        T,
                                    >(pre));
                                    assert(joins_view::<T>(p.join@).last() == (true, a@));
                                    assert(crate::tree::fold_sibling_chain::<T>(
                                        leaf0,
                                        joins_view::<T>(p.join@),
                                    ) == T::node_hash(
                                        a@,
                                        crate::tree::fold_sibling_chain::<T>(
                                            leaf0,
                                            joins_view::<T>(pre),
                                        ),
                                    ));
                                }
                            },
                            None => {},
                        }
                        self.track_stack_index = Some(
                            if idx >= 1 {
                                idx - 1
                            } else {
                                0
                            },
                        );
                    } else if self.stack_index >= 1 && idx == self.stack_index - 1 {
                        match &mut self.path {
                            Some(p) => {
                                let ghost pre = p.join@;
                                let ghost leaf0 = p.leaf@;
                                p.join.push(PathJoin::Right(T::dup(b)));
                                proof {
                                    assert(joins_view::<T>(p.join@) =~= joins_view::<T>(
                                        pre,
                                    ).push((false, b@)));
                                    assert(joins_view::<T>(p.join@).drop_last() =~= joins_view::<
                                        T,
                                    >(pre));
                                    assert(joins_view::<T>(p.join@).last() == (false, b@));
                                    assert(crate::tree::fold_sibling_chain::<T>(
                                        leaf0,
                                        joins_view::<T>(p.join@),
                                    ) == T::node_hash(
                                        crate::tree::fold_sibling_chain::<T>(
                                            leaf0,
                                            joins_view::<T>(pre),
                                        ),
                                        b@,
                                    ));
                                }
                            },
                            None => {},
                        }
                    }
                },
                None => {},
            }
            if self.stack_index >= 1 {
                self.stack_index = self.stack_index - 1;
            }
        }
        Ok(h)
    }

    fn dup(t: &T::Target) -> (r: T::Target) {
        T::dup(t)
    }

    open spec fn fill_mode(&self) -> bool {
        self.fill
    }

    open spec fn recorded_leaf(&self) -> Option<HashOf<T>> {
        match self.path {
            None => None,
            Some(p) => Some(p.leaf@),
        }
    }

    open spec fn tracked_index(&self) -> Option<nat> {
        match self.track_input_index {
            None => None,
            Some(t) => Some(t as nat),
        }
    }

    open spec fn leaves_seen(&self) -> nat {
        self.input_index as nat
    }

    open spec fn observing() -> bool {
        true
    }

    open spec fn depth(&self) -> nat {
        self.stack_index as nat
    }

    open spec fn target_depth(&self) -> Option<nat> {
        match self.track_stack_index {
            None => None,
            Some(t) => Some(t as nat),
        }
    }

    open spec fn recorded_fold(&self) -> Option<HashOf<T>> {
        match self.path {
            None => None,
            Some(p) => Some(
                crate::tree::fold_sibling_chain::<T>(p.leaf@, joins_view::<T>(p.join@)),
            ),
        }
    }

    fn start_fill(&mut self)
        ensures
            final(self).fill,
            final(self).base == old(self).base,
            final(self).input_index == old(self).input_index,
            final(self).stack_index == old(self).stack_index,
            final(self).track_input_index == old(self).track_input_index,
            final(self).track_stack_index == old(self).track_stack_index,
            final(self).path == old(self).path,
    {
        self.fill = true;
    }

    fn end_fill(&mut self)
        ensures
            !final(self).fill,
            final(self).stack_index == (if old(self).stack_index < usize::MAX {
                (old(self).stack_index + 1) as usize
            } else {
                usize::MAX
            }),
            final(self).base == old(self).base,
            final(self).input_index == old(self).input_index,
            final(self).track_input_index == old(self).track_input_index,
            final(self).track_stack_index == old(self).track_stack_index,
            final(self).path == old(self).path,
    {
        self.fill = false;
        self.stack_index = if self.stack_index < usize::MAX {
            self.stack_index + 1
        } else {
            usize::MAX
        };
    }
}

} // verus!
