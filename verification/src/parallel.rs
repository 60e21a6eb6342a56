//! Parallel work on the threads of `rayon`.

use rayon::iter::{IntoParallelRefIterator, ParallelIterator};
use vstd::prelude::*;

verus! {

/// How a reduction came about: which values were combined with which. Each node
/// carries the value that stands for it.
pub enum Reduction<R> {
    /// A value that was put in beside the items.
    Identity { value: R },
    /// The value of one item.
    Item { value: R },
    /// The combination of two parts, of which the second starts at item `mid`.
    Join { left: Box<Reduction<R>>, mid: int, right: Box<Reduction<R>>, value: R },
}

impl<R> Reduction<R> {
    /// What the reduction amounts to.
    pub open spec fn value(self) -> R {
        match self {
            Reduction::Identity { value } => value,
            Reduction::Item { value } => value,
            Reduction::Join { value, .. } => value,
        }
    }

    /// Whether this is a reduction of the items from `lo` up to `hi`, each taken
    /// once and in order, in which every value is one that the functions return.
    pub open spec fn reduces<T, M: Fn(&T) -> R, I: Fn() -> R, O: Fn(R, R) -> R>(
        self,
        items: Seq<T>,
        lo: int,
        hi: int,
        map: M,
        identity: I,
        op: O,
    ) -> bool
        decreases self,
    {
        match self {
            Reduction::Identity { value } => lo == hi && call_ensures(identity, (), value),
            Reduction::Item { value } => hi == lo + 1 && call_ensures(map, (&items[lo],), value),
            Reduction::Join { left, mid, right, value } => {
                &&& lo <= mid <= hi
                &&& left.reduces(items, lo, mid, map, identity, op)
                &&& right.reduces(items, mid, hi, map, identity, op)
                &&& call_ensures(op, (left.value(), right.value()), value)
            },
        }
    }
}

/// Whether `value` is what some reduction of all the items amounts to.
pub open spec fn is_reduction<T, R, M: Fn(&T) -> R, I: Fn() -> R, O: Fn(R, R) -> R>(
    value: R,
    items: Seq<T>,
    map: M,
    identity: I,
    op: O,
) -> bool {
    exists|how: Reduction<R>| #[trigger]
        how.reduces(items, 0, items.len() as int, map, identity, op) && how.value() == value
}

/// Calls `rayon`: `par_iter` on the slice, `map`, and `ParallelIterator::reduce`.
///
/// What is claimed of them is that the outcome is some reduction of all the items:
/// each item is mapped once, the values are combined by `op` in the order of the
/// items, values of `identity` may stand anywhere between them, and nothing is
/// said of how the calls of `op` are grouped, which may differ from one run to the
/// next. The calls run on the global thread pool, which has to start.
#[verifier::external_body]
pub(crate) fn map_reduce<T, R, M, I, O>(items: &[T], map: M, identity: I, op: O) -> (r: R)
    where
        T: Sync,
        R: Send,
        M: Fn(&T) -> R + Sync + Send,
        I: Fn() -> R + Sync + Send,
        O: Fn(R, R) -> R + Sync + Send,
    requires
        forall|i: int| 0 <= i < items@.len() ==> call_requires(map, (&#[trigger] items@[i],)),
        call_requires(identity, ()),
        forall|a: R, b: R| #[trigger] call_requires(op, (a, b)),
    ensures
        is_reduction(r, items@, map, identity, op),
{
    items.par_iter().map(map).reduce(identity, op)
}

} // verus!
