//! The segment tree itself: a flat store of `2n` slots indexed as an
//! implicit binary tree (node `v` has children `2v` and `2v + 1`, the root is
//! node `1`, leaves occupy `[n, 2n)`), where `n` is the smallest power of two
//! at or above the requested logical size. Point assignment rewrites one leaf
//! and its ancestor chain; range queries decompose the range over the tree,
//! combining left before right.

use crate::monoid::Monoid;
use crate::monoid::seq_fold;
use crate::monoid::lemma_fold_singleton;
use crate::monoid::lemma_fold_concat;
use crate::monoid::lemma_fold_all_identity;
use vstd::prelude::*;

verus! {

/// Why a construction or an operation was rejected.
#[derive(Clone, Copy, Debug, PartialEq, Eq, Structural)]
pub enum SegTreeError {
    /// Construction was requested with an unsupported size (zero).
    InvalidArgument,
    /// `assign` was called with an index at or beyond the logical size.
    IndexOutOfRange,
    /// `range_sum` was called with reversed bounds, or with a bound at or
    /// beyond the logical size.
    InvalidRange,
}

/// `n` is a power of two.
pub open spec fn is_pow2(n: int) -> bool
    decreases n,
{
    if n <= 0 {
        false
    } else if n == 1 {
        true
    } else {
        n % 2 == 0 && is_pow2(n / 2)
    }
}

/// Node `v` of the implicit tree with `n` leaves covers exactly the span
/// `[l, r]` of logical positions: leaves cover themselves, and an internal
/// node covers whatever its two children cover, split at the midpoint.
spec fn covers(n: int, v: int, l: int, r: int) -> bool
    decreases r - l,
        when l <= r
{
    if l == r {
        v == n + l
    } else {
        covers(n, 2 * v, l, (l + r) / 2) && covers(n, 2 * v + 1, (l + r) / 2 + 1, r)
    }
}

/// `v` lies on the chain from `w` up to the root (inclusive of `w` itself).
spec fn is_anc(v: int, w: int) -> bool
    decreases w,
        when w >= 0
{
    if w <= 0 {
        v == w
    } else {
        v == w || is_anc(v, w / 2)
    }
}

/// In a tree with `n` leaves, the node `v` whose span of length `s` starts at
/// leaf `l` satisfies `n + l == v * s`; spans of the whole subtree below it
/// follow by splitting in half.
proof fn lemma_covers_span(n: int, v: int, l: int, s: int)
    requires
        is_pow2(s),
        v >= 1,
        n + l == v * s,
    ensures
        covers(n, v, l, l + s - 1),
    decreases s,
{
    if s == 1 {
        assert(covers(n, v, l, l));
    } else {
        let h = s / 2;
        assert(s == 2 * h);
        assert(2 * v * h == v * s) by (nonlinear_arith)
            requires
                s == 2 * h,
        ;
        lemma_covers_span(n, 2 * v, l, h);
        assert((2 * v + 1) * h == v * s + h) by (nonlinear_arith)
            requires
                s == 2 * h,
        ;
        lemma_covers_span(n, 2 * v + 1, l + h, h);
        assert((l + (l + s - 1)) / 2 == l + h - 1);
        assert(covers(n, v, l, l + s - 1));
    }
}

/// The root, node `1`, covers the whole span `[0, n - 1]`.
proof fn lemma_covers_root(n: int)
    requires
        is_pow2(n),
    ensures
        covers(n, 1, 0, n - 1),
{
    lemma_covers_span(n, 1, 0, n);
}

/// An array-backed segment tree over a fixed-size sequence of `T` values,
/// supporting point assignment and range-aggregate queries with the glue
/// operation of `T`'s [`Monoid`] instance.
///
/// The view `self@` is the sequence of current values at the logical
/// positions `[0, size)`.
pub struct SegmentTree<T: Monoid> {
    /// Capacity: the smallest power of two at or above `size`; fixed for the
    /// lifetime of the tree.
    pub n: usize,
    /// Logical element count as requested at construction; indices are
    /// validated against this, never against the padded capacity.
    pub size: usize,
    /// Backing store of `2 * n` slots with 1-based implicit tree indexing;
    /// slot `0` is unused and leaf `n + i` holds logical position `i`.
    pub arr: Vec<T>,
    /// The identity element, cached at construction.
    pub identity: T,
}

impl<T: Monoid> View for SegmentTree<T> {
    type V = Seq<T>;

    open spec fn view(&self) -> Seq<T> {
        Seq::new(self.size as nat, |i: int| self.arr@[self.n + i])
    }
}

impl<T: Monoid> SegmentTree<T> {
    /// The heap property: every internal node holds its two children glued
    /// together, left before right. Maintained by every operation.
    pub open spec fn heap_property(&self) -> bool {
        forall|v: int|
            1 <= v < self.n ==> #[trigger] self.arr@[v] == T::op_spec(
                self.arr@[2 * v],
                self.arr@[2 * v + 1],
            )
    }

    /// Leaf slots beyond the logical size hold the identity element.
    pub open spec fn padding_identity(&self) -> bool {
        forall|w: int|
            self.n + self.size <= w < 2 * self.n ==> #[trigger] self.arr@[w] == T::id_spec()
    }

    /// Well-formedness: the shape invariants fixed at construction, the heap
    /// property, and identity padding.
    pub open spec fn wf(&self) -> bool {
        &&& is_pow2(self.n as int)
        &&& 1 <= self.size <= self.n
        &&& self.n <= usize::MAX / 2
        &&& self.arr@.len() == 2 * self.n
        &&& self.identity == T::id_spec()
        &&& self.heap_property()
        &&& self.padding_identity()
    }

    /// The current values of the logical positions `[lo, hi]`, read from the
    /// leaf slots.
    spec fn leaf_seq(&self, lo: int, hi: int) -> Seq<T> {
        Seq::new((hi + 1 - lo) as nat, |t: int| self.arr@[self.n + lo + t])
    }

    /// In a well-formed tree, the node covering `[l, r]` holds the fold of
    /// the values at those positions; internal nodes sit below `n` and every
    /// covering node indexes into the store.
    proof fn lemma_node_fold(&self, v: int, l: int, r: int)
        requires
            self.wf(),
            covers(self.n as int, v, l, r),
            0 <= l <= r < self.n,
        ensures
            1 <= v < 2 * self.n,
            l < r ==> v < self.n,
            self.arr@[v] == seq_fold(self.leaf_seq(l, r)),
        decreases r - l,
    {
        if l == r {
            assert(self.leaf_seq(l, r) =~= seq![self.arr@[v]]);
            lemma_fold_singleton::<T>(self.leaf_seq(l, r));
        } else {
            let m = (l + r) / 2;
            assert(l <= m < r);
            self.lemma_node_fold(2 * v, l, m);
            self.lemma_node_fold(2 * v + 1, m + 1, r);
            assert(self.arr@[v] == T::op_spec(self.arr@[2 * v], self.arr@[2 * v + 1]));
            lemma_fold_concat::<T>(self.leaf_seq(l, m), self.leaf_seq(m + 1, r));
            assert(self.leaf_seq(l, r) =~= self.leaf_seq(l, m) + self.leaf_seq(m + 1, r));
        }
    }
}

/// The smallest power of two at or above `nn` (and `1` for `nn == 0`).
fn super_ceiling(nn: usize) -> (p: usize)
    requires
        nn <= usize::MAX / 4,
    ensures
        is_pow2(p as int),
        p >= nn,
        p == 1 || p / 2 < nn,
        p <= usize::MAX / 2,
{
    let mut p: usize = 1;
    while p < nn
        invariant
            nn <= usize::MAX / 4,
            is_pow2(p as int),
            1 <= p,
            p == 1 || p / 2 < nn,
        decreases 2 * nn - p,
    {
        p = 2 * p;
    }
    p
}

impl<T: Monoid> SegmentTree<T> {
    /// Builds a tree of logical size `size` with every position holding the
    /// identity element: the capacity is the smallest power of two at or
    /// above `size`, and all `2n` slots are initialized to the identity. A
    /// size of zero is rejected with `InvalidArgument`; no other input fails.
    pub fn new(size: usize) -> (res: Result<SegmentTree<T>, SegTreeError>)
        requires
            size <= usize::MAX / 4,
        ensures
            match res {
                Ok(t) => {
                    &&& size >= 1
                    &&& t.wf()
                    &&& t.size == size
                    &&& (t.n == 1 || t.n / 2 < size)
                    &&& forall|w: int| 0 <= w < 2 * t.n ==> #[trigger] t.arr@[w] == T::id_spec()
                    &&& t@ == Seq::new(size as nat, |i: int| T::id_spec())
                },
                Err(e) => size == 0 && e == SegTreeError::InvalidArgument,
            },
    {
        if size == 0 {
            return Err(SegTreeError::InvalidArgument);
        }
        let n = super_ceiling(size);
        let iden = T::id();
        let cap = 2 * n;
        let mut arr: Vec<T> = Vec::new();
        let mut k: usize = 0;
        while k < cap
            invariant
                arr@.len() == k,
                k <= cap,
                iden == T::id_spec(),
                forall|w: int| 0 <= w < k ==> arr@[w] == T::id_spec(),
            decreases cap - k,
        {
            arr.push(iden);
            k = k + 1;
        }
        let t = SegmentTree { n, size, arr, identity: iden };
        proof {
            T::lemma_identity(T::id_spec());
            assert(t.heap_property());
            assert(t.padding_identity());
            assert(t@ =~= Seq::new(size as nat, |i: int| T::id_spec()));
        }
        Ok(t)
    }

    /// Index of the parent of node `i`.
    fn parent(i: usize) -> (r: usize)
        ensures
            r == i / 2,
    {
        i / 2
    }

    /// Index of the left child of internal node `i`.
    fn left_child(i: usize) -> (r: usize)
        requires
            2 * i <= usize::MAX,
        ensures
            r == 2 * i,
    {
        2 * i
    }

    /// Index of the right child of internal node `i`.
    fn right_child(i: usize) -> (r: usize)
        requires
            2 * i + 1 <= usize::MAX,
        ensures
            r == 2 * i + 1,
    {
        2 * i + 1
    }

    /// Point update: writes `x` at logical position `i` and recomputes the
    /// ancestor chain of leaf `n + i` bottom-up, so the heap property holds
    /// again for the whole tree. The capacity, the identity, and the unused
    /// slot `0` are never touched. An index at or beyond the logical size is
    /// rejected with `IndexOutOfRange` before any mutation.
    pub fn assign(&mut self, i: usize, x: T) -> (res: Result<(), SegTreeError>)
        requires
            old(self).wf(),
        ensures
            final(self).wf(),
            final(self).size == old(self).size,
            final(self).n == old(self).n,
            final(self).identity == old(self).identity,
            final(self).arr@[0] == old(self).arr@[0],
            i < old(self).size ==> res == Ok::<(), SegTreeError>(()) && final(self)@ == old(
                self,
            )@.update(i as int, x),
            i >= old(self).size ==> res == Err::<(), SegTreeError>(SegTreeError::IndexOutOfRange)
                && *final(self) == *old(self),
    {
        if i >= self.size {
            return Err(SegTreeError::IndexOutOfRange);
        }
        let ghost la = old(self).arr@.update(self.n + i, x);
        let mut v = i + self.n;
        self.arr.set(v, x);
        v = Self::parent(v);
        proof {
            let leaf = self.n + i;
            assert forall|u: int|
                1 <= u < self.n && !is_anc(u, v as int) implies #[trigger] self.arr@[u]
                == T::op_spec(self.arr@[2 * u], self.arr@[2 * u + 1]) by {
                if 2 * u == leaf || 2 * u + 1 == leaf {
                    assert(u == leaf as int / 2);
                    assert(is_anc(u, v as int));
                }
                assert(self.arr@[u] == old(self).arr@[u]);
                assert(self.arr@[2 * u] == old(self).arr@[2 * u]);
                assert(self.arr@[2 * u + 1] == old(self).arr@[2 * u + 1]);
            }
        }
        while v > 0
            invariant
                i < self.size,
                self.size == old(self).size,
                self.n == old(self).n,
                self.identity == old(self).identity,
                is_pow2(self.n as int),
                1 <= self.size <= self.n,
                self.n <= usize::MAX / 2,
                self.arr@.len() == 2 * self.n,
                la == old(self).arr@.update(self.n + i, x),
                self.arr@[0] == old(self).arr@[0],
                v < self.n,
                forall|w: int| self.n <= w < 2 * self.n ==> #[trigger] self.arr@[w] == la[w],
                forall|u: int|
                    1 <= u < self.n && !is_anc(u, v as int) ==> #[trigger] self.arr@[u]
                        == T::op_spec(self.arr@[2 * u], self.arr@[2 * u + 1]),
            decreases v,
        {
            let lc = Self::left_child(v);
            let rc = Self::right_child(v);
            let combined = T::op(self.arr[lc], self.arr[rc]);
            let ghost pre = self.arr@;
            self.arr.set(v, combined);
            proof {
                let vi = v as int;
                assert forall|u: int|
                    1 <= u < self.n && !is_anc(u, vi / 2) implies #[trigger] self.arr@[u]
                    == T::op_spec(self.arr@[2 * u], self.arr@[2 * u + 1]) by {
                    if u != vi {
                        assert(!is_anc(u, vi));
                        if 2 * u == vi || 2 * u + 1 == vi {
                            assert(u == vi / 2);
                            assert(is_anc(u, vi / 2));
                        }
                        assert(self.arr@[u] == pre[u]);
                        assert(self.arr@[2 * u] == pre[2 * u]);
                        assert(self.arr@[2 * u + 1] == pre[2 * u + 1]);
                    }
                }
            }
            v = Self::parent(v);
        }
        proof {
            assert forall|u: int|
                1 <= u < self.n implies #[trigger] self.arr@[u] == T::op_spec(
                self.arr@[2 * u],
                self.arr@[2 * u + 1],
            ) by {
                assert(!is_anc(u, 0));
            }
            assert forall|w: int|
                self.n + self.size <= w < 2 * self.n implies #[trigger] self.arr@[w]
                == T::id_spec() by {
                assert(self.arr@[w] == la[w]);
                assert(la[w] == old(self).arr@[w]);
            }
            assert forall|k: int| 0 <= k < self.size implies self@[k] == old(self)@.update(
                i as int,
                x,
            )[k] by {
                assert(self.arr@[self.n + k] == la[self.n + k]);
            }
            assert(self@ =~= old(self)@.update(i as int, x));
        }
        Ok(())
    }

    /// Recursive range decomposition, as in the classic algorithm: at node
    /// `v` covering `[l, r]`, a query range equal to the whole span is read
    /// off the node directly; otherwise the span is split at its midpoint,
    /// each side that intersects the query is visited with the query clipped
    /// to it, and the partial results are glued left before right, the
    /// identity standing in for an unvisited side.
    fn f(&self, v: usize, l: usize, r: usize, i: usize, j: usize) -> (res: T)
        requires
            self.wf(),
            covers(self.n as int, v as int, l as int, r as int),
            l <= i <= j <= r,
            r < self.n,
        ensures
            res == seq_fold(self.leaf_seq(i as int, j as int)),
        decreases r - l,
    {
        proof {
            self.lemma_node_fold(v as int, l as int, r as int);
        }
        if l == i && r == j {
            self.arr[v]
        } else {
            let m = (l + r) / 2;
            proof {
                assert(l as int <= (l as int + r as int) / 2 < r as int);
            }
            let t1 = if i <= m {
                let jc = if j < m {
                    j
                } else {
                    m
                };
                self.f(Self::left_child(v), l, m, i, jc)
            } else {
                self.identity
            };
            let t2 = if j > m {
                let ic = if i > m {
                    i
                } else {
                    m + 1
                };
                self.f(Self::right_child(v), m + 1, r, ic, j)
            } else {
                self.identity
            };
            proof {
                let li = i as int;
                let lj = j as int;
                let lm = m as int;
                if i <= m && j > m {
                    lemma_fold_concat::<T>(self.leaf_seq(li, lm), self.leaf_seq(lm + 1, lj));
                    assert(self.leaf_seq(li, lj) =~= self.leaf_seq(li, lm) + self.leaf_seq(
                        lm + 1,
                        lj,
                    ));
                } else if i <= m {
                    T::lemma_identity(t1);
                } else {
                    T::lemma_identity(t2);
                }
            }
            T::op(t1, t2)
        }
    }

    /// Range aggregate: the glue operation applied left-to-right across the
    /// current values at positions `lo..hi` inclusive. Reversed bounds, or a
    /// bound at or beyond the logical size, are rejected with `InvalidRange`;
    /// every other pair of bounds succeeds.
    pub fn range_sum(&self, lo: usize, hi: usize) -> (res: Result<T, SegTreeError>)
        requires
            self.wf(),
        ensures
            (lo <= hi && hi < self.size) ==> (res matches Ok(agg) && agg == seq_fold(
                self@.subrange(lo as int, hi as int + 1),
            )),
            !(lo <= hi && hi < self.size) ==> res == Err::<T, SegTreeError>(
                SegTreeError::InvalidRange,
            ),
    {
        if lo > hi || hi >= self.size {
            return Err(SegTreeError::InvalidRange);
        }
        proof {
            lemma_covers_root(self.n as int);
        }
        let out = self.f(1, 0, self.n - 1, lo, hi);
        proof {
            assert(self@.subrange(lo as int, hi as int + 1) =~= self.leaf_seq(
                lo as int,
                hi as int,
            ));
        }
        Ok(out)
    }
}

/// Law: reading is idempotent. The query contract pins the result down as a
/// function of the tree's values and the bounds alone, so any two results
/// that `range_sum`'s contract admits for the same tree and bounds are equal.
pub proof fn lemma_query_idempotent<T: Monoid>(t: SegmentTree<T>, lo: int, hi: int, r1: T, r2: T)
    requires
        t.wf(),
        0 <= lo <= hi < t.size,
        r1 == seq_fold(t@.subrange(lo, hi + 1)),
        r2 == seq_fold(t@.subrange(lo, hi + 1)),
    ensures
        r1 == r2,
{
}

/// Law: a freshly constructed tree — one whose every logical position holds
/// the identity element, as `new` ensures — answers every valid range query
/// with the identity element.
pub proof fn lemma_fresh_query_identity<T: Monoid>(t: SegmentTree<T>, lo: int, hi: int)
    requires
        t.wf(),
        0 <= lo <= hi < t.size,
        t@ == Seq::new(t.size as nat, |i: int| T::id_spec()),
    ensures
        seq_fold(t@.subrange(lo, hi + 1)) == T::id_spec(),
{
    lemma_fold_all_identity::<T>(t@.subrange(lo, hi + 1));
}

/// Law: a single-point query returns the value currently stored at that
/// position; in particular, right after `assign(i, x)` the query over
/// `[i, i]` returns `x`, since `assign` ensures the view is the old view
/// updated at `i`.
pub proof fn lemma_point_query<T: Monoid>(s: Seq<T>, i: int)
    requires
        0 <= i < s.len(),
    ensures
        seq_fold(s.subrange(i, i + 1)) == s[i],
{
    lemma_fold_singleton::<T>(s.subrange(i, i + 1));
}

/// Law: the full-range query aggregates every logical position — the fold
/// over `[0, size)` is the fold of the whole view.
pub proof fn lemma_full_range<T: Monoid>(t: SegmentTree<T>)
    requires
        t.wf(),
    ensures
        seq_fold(t@.subrange(0, t.size as int)) == seq_fold(t@),
{
    assert(t@.subrange(0, t.size as int) =~= t@);
}

} // verus!
