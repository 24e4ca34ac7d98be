//! The algebra a segment tree aggregates with: an associative binary glue
//! operation together with a two-sided identity element, bound at compile
//! time through the [`Monoid`] trait, and the mathematical fold that the
//! tree's query contracts are stated over.

use vstd::arithmetic::div_mod::{lemma_add_mod_noop, lemma_mod_sub_multiples_vanish, lemma_small_mod};
use vstd::prelude::*;

verus! {

/// An associative binary operation with a two-sided identity element.
///
/// A segment tree is polymorphic over exactly this capability: combine two
/// values into one, associatively, with a neutral element. Implementors
/// provide the mathematical definition (`op_spec`, `id_spec`), discharge the
/// monoid laws (`lemma_assoc`, `lemma_identity`), and supply executable code
/// proved to match the mathematical definition (`op`, `id`).
pub trait Monoid: Copy + Sized {
    /// Mathematical meaning of the glue operation.
    spec fn op_spec(a: Self, b: Self) -> Self;

    /// Mathematical identity element of the glue operation.
    spec fn id_spec() -> Self;

    /// Law: the glue operation is associative.
    proof fn lemma_assoc(a: Self, b: Self, c: Self)
        ensures
            Self::op_spec(Self::op_spec(a, b), c) == Self::op_spec(a, Self::op_spec(b, c)),
    ;

    /// Law: the identity element is neutral on both sides.
    proof fn lemma_identity(a: Self)
        ensures
            Self::op_spec(Self::id_spec(), a) == a,
            Self::op_spec(a, Self::id_spec()) == a,
    ;

    /// Executable glue operation, proved to compute `op_spec`.
    fn op(a: Self, b: Self) -> (r: Self)
        ensures
            r == Self::op_spec(a, b),
    ;

    /// Executable identity element, proved to compute `id_spec`.
    fn id() -> (r: Self)
        ensures
            r == Self::id_spec(),
    ;
}

/// The glue operation applied across a sequence in index order:
/// `s[0] ⋅ (s[1] ⋅ (… ⋅ (s[len-1] ⋅ e)))`. By associativity this equals the
/// left-to-right fold (see [`lemma_fold_is_fold_left`]); the empty sequence
/// folds to the identity.
pub open spec fn seq_fold<T: Monoid>(s: Seq<T>) -> T
    decreases s.len(),
{
    if s.len() == 0 {
        T::id_spec()
    } else {
        T::op_spec(s.first(), seq_fold(s.drop_first()))
    }
}

/// The glue operation as a binary spec closure, for use with `Seq::fold_left`.
pub open spec fn op_fn<T: Monoid>() -> spec_fn(T, T) -> T {
    |acc: T, x: T| T::op_spec(acc, x)
}

/// Folding a single element gives back that element.
pub proof fn lemma_fold_singleton<T: Monoid>(s: Seq<T>)
    requires
        s.len() == 1,
    ensures
        seq_fold(s) == s[0],
{
    assert(s.drop_first().len() == 0);
    assert(seq_fold(s.drop_first()) == T::id_spec());
    T::lemma_identity(s[0]);
}

/// Folding a concatenation glues the folds of the two halves.
pub proof fn lemma_fold_concat<T: Monoid>(s1: Seq<T>, s2: Seq<T>)
    ensures
        seq_fold(s1 + s2) == T::op_spec(seq_fold(s1), seq_fold(s2)),
    decreases s1.len(),
{
    if s1.len() == 0 {
        assert(s1 + s2 =~= s2);
        T::lemma_identity(seq_fold(s2));
    } else {
        assert((s1 + s2).len() > 0);
        assert((s1 + s2).first() == s1.first());
        assert((s1 + s2).drop_first() =~= s1.drop_first() + s2);
        lemma_fold_concat::<T>(s1.drop_first(), s2);
        T::lemma_assoc(s1.first(), seq_fold(s1.drop_first()), seq_fold(s2));
    }
}

/// A sequence made of identity elements folds to the identity.
pub proof fn lemma_fold_all_identity<T: Monoid>(s: Seq<T>)
    requires
        forall|k: int| 0 <= k < s.len() ==> s[k] == T::id_spec(),
    ensures
        seq_fold(s) == T::id_spec(),
    decreases s.len(),
{
    if s.len() > 0 {
        assert(forall|k: int| 0 <= k < s.drop_first().len() ==> s.drop_first()[k] == T::id_spec());
        lemma_fold_all_identity::<T>(s.drop_first());
        T::lemma_identity(T::id_spec());
    }
}

/// Helper for [`lemma_fold_is_fold_left`]: folding from the left out of an
/// arbitrary accumulator glues the accumulator onto the fold of the sequence.
pub proof fn lemma_fold_left_from<T: Monoid>(s: Seq<T>, a: T)
    ensures
        s.fold_left(a, op_fn::<T>()) == T::op_spec(a, seq_fold(s)),
    decreases s.len(),
{
    if s.len() == 0 {
        T::lemma_identity(a);
    } else {
        lemma_fold_left_from::<T>(s.drop_last(), a);
        assert(s =~= s.drop_last() + seq![s.last()]);
        lemma_fold_concat::<T>(s.drop_last(), seq![s.last()]);
        lemma_fold_singleton::<T>(seq![s.last()]);
        T::lemma_assoc(a, seq_fold(s.drop_last()), s.last());
    }
}

/// Law: `seq_fold` combines the elements strictly left-to-right — it equals
/// the left fold of the glue operation over the sequence, starting from the
/// identity. This is what makes the tree's answers correct for
/// non-commutative operations.
pub proof fn lemma_fold_is_fold_left<T: Monoid>(s: Seq<T>)
    ensures
        s.fold_left(T::id_spec(), op_fn::<T>()) == seq_fold(s),
{
    lemma_fold_left_from::<T>(s, T::id_spec());
    T::lemma_identity(seq_fold(s));
}

/// Addition modulo 2^64: the sum monoid on `u64`. Wrapping keeps the
/// operation total and associative on the whole domain; whenever the true sum
/// fits in 64 bits it coincides with ordinary addition.
impl Monoid for u64 {
    open spec fn op_spec(a: u64, b: u64) -> u64 {
        ((a + b) % 0x1_0000_0000_0000_0000) as u64
    }

    open spec fn id_spec() -> u64 {
        0u64
    }

    proof fn lemma_assoc(a: u64, b: u64, c: u64) {
        let m: int = 0x1_0000_0000_0000_0000;
        lemma_small_mod(a as nat, m as nat);
        lemma_small_mod(c as nat, m as nat);
        lemma_add_mod_noop(a + b, c as int, m);
        lemma_add_mod_noop(a as int, b + c, m);
    }

    proof fn lemma_identity(a: u64) {
        let m: int = 0x1_0000_0000_0000_0000;
        lemma_small_mod(a as nat, m as nat);
    }

    fn op(a: u64, b: u64) -> (r: u64) {
        if b <= u64::MAX - a {
            proof {
                lemma_small_mod((a + b) as nat, 0x1_0000_0000_0000_0000);
            }
            a + b
        } else {
            proof {
                let m: int = 0x1_0000_0000_0000_0000;
                lemma_mod_sub_multiples_vanish(a + b - m, m);
                lemma_small_mod((a + b - m) as nat, m as nat);
            }
            (a - (u64::MAX - b)) - 1
        }
    }

    fn id() -> (r: u64) {
        0
    }
}

/// The leftmost recorded value, if any. A non-commutative monoid: gluing
/// keeps whichever operand stands further to the left, so a range query over
/// it returns the first position in the range that was assigned a value.
#[derive(Clone, Copy, Debug, PartialEq, Eq, Structural)]
pub enum First {
    /// No value recorded; the identity element.
    Empty,
    /// A recorded value.
    Val(u64),
}

impl Monoid for First {
    open spec fn op_spec(a: First, b: First) -> First {
        match a {
            First::Empty => b,
            First::Val(_) => a,
        }
    }

    open spec fn id_spec() -> First {
        First::Empty
    }

    proof fn lemma_assoc(a: First, b: First, c: First) {
    }

    proof fn lemma_identity(a: First) {
    }

    fn op(a: First, b: First) -> (r: First) {
        match a {
            First::Empty => b,
            First::Val(_) => a,
        }
    }

    fn id() -> (r: First) {
        First::Empty
    }
}

} // verus!
