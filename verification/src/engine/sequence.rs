//! Concatenations of sequences over a range of indices.

use vstd::prelude::*;

verus! {

/// The concatenation `f(lo) + f(lo + 1) + ... + f(hi - 1)`.
pub open spec fn concat_range<T>(lo: int, hi: int, f: spec_fn(int) -> Seq<T>) -> Seq<T>
    decreases hi - lo,
{
    if hi <= lo {
        Seq::empty()
    } else {
        concat_range(lo, hi - 1, f) + f(hi - 1)
    }
}

/// A concatenation splits at any point of its range.
pub proof fn lemma_concat_split<T>(lo: int, mid: int, hi: int, f: spec_fn(int) -> Seq<T>)
    requires
        lo <= mid <= hi,
    ensures
        concat_range(lo, hi, f) == concat_range(lo, mid, f) + concat_range(mid, hi, f),
    decreases hi - mid,
{
    if mid == hi {
        assert(concat_range(lo, mid, f) + Seq::<T>::empty() =~= concat_range(lo, mid, f));
    } else {
        lemma_concat_split(lo, mid, hi - 1, f);
        assert((concat_range(lo, mid, f) + concat_range(mid, hi - 1, f)) + f(hi - 1)
            =~= concat_range(lo, mid, f) + (concat_range(mid, hi - 1, f) + f(hi - 1)));
    }
}

/// The concatenation over the first part of a range begins the one over the
/// whole range.
pub proof fn lemma_concat_prefix<T>(lo: int, mid: int, hi: int, f: spec_fn(int) -> Seq<T>)
    requires
        lo <= mid <= hi,
    ensures
        concat_range(lo, mid, f).is_prefix_of(concat_range(lo, hi, f)),
{
    lemma_concat_split(lo, mid, hi, f);
}

/// Concatenating one more piece appends it.
pub proof fn lemma_concat_step<T>(lo: int, hi: int, f: spec_fn(int) -> Seq<T>)
    requires
        lo <= hi,
    ensures
        concat_range(lo, hi + 1, f) == concat_range(lo, hi, f) + f(hi),
{
}

/// Pieces that are all empty concatenate to the empty sequence.
pub proof fn lemma_concat_empty<T>(lo: int, hi: int, f: spec_fn(int) -> Seq<T>)
    requires
        forall|i: int| lo <= i < hi ==> (#[trigger] f(i)).len() == 0,
    ensures
        concat_range(lo, hi, f) == Seq::<T>::empty(),
    decreases hi - lo,
{
    if hi > lo {
        lemma_concat_empty(lo, hi - 1, f);
        assert(f(hi - 1) =~= Seq::<T>::empty());
        assert(Seq::<T>::empty() + Seq::<T>::empty() =~= Seq::<T>::empty());
    }
}

/// A family that is another one moved by `d` has the other's concatenation
/// over the range moved by `d`.
pub proof fn lemma_concat_shift<T>(
    lo: int,
    hi: int,
    f: spec_fn(int) -> Seq<T>,
    d: int,
    g: spec_fn(int) -> Seq<T>,
)
    requires
        forall|i: int| lo <= i < hi ==> #[trigger] f(i) == g(i + d),
    ensures
        concat_range(lo, hi, f) == concat_range(lo + d, hi + d, g),
    decreases hi - lo,
{
    if hi > lo {
        lemma_concat_shift(lo, hi - 1, f, d, g);
        assert(f(hi - 1) == g(hi - 1 + d));
    }
}

/// An element is in a concatenation exactly when it is in one of the pieces.
pub proof fn lemma_concat_contains<T>(lo: int, hi: int, f: spec_fn(int) -> Seq<T>, x: T)
    ensures
        concat_range(lo, hi, f).contains(x) <==> exists|i: int|
            lo <= i < hi && (#[trigger] f(i)).contains(x),
    decreases hi - lo,
{
    if hi <= lo {
        assert(!Seq::<T>::empty().contains(x));
    } else {
        lemma_concat_contains(lo, hi - 1, f, x);
        let init = concat_range(lo, hi - 1, f);
        let last = f(hi - 1);
        if (init + last).contains(x) {
            let k = choose|k: int| 0 <= k < (init + last).len() && (init + last)[k] == x;
            if k < init.len() {
                assert(init[k] == x);
                assert(init.contains(x));
            } else {
                assert(last[k - init.len()] == x);
                assert(last.contains(x));
            }
        }
        if exists|i: int| lo <= i < hi && (#[trigger] f(i)).contains(x) {
            let i = choose|i: int| lo <= i < hi && (#[trigger] f(i)).contains(x);
            if i == hi - 1 {
                let k = choose|k: int| 0 <= k < last.len() && last[k] == x;
                assert((init + last)[init.len() + k] == x);
            } else {
                assert(init.contains(x));
                let k = choose|k: int| 0 <= k < init.len() && init[k] == x;
                assert((init + last)[k] == x);
            }
        }
    }
}

/// A concatenation repeats nothing when no piece does and no two pieces
/// share an element.
pub proof fn lemma_concat_no_duplicates<T>(lo: int, hi: int, f: spec_fn(int) -> Seq<T>)
    requires
        forall|i: int| lo <= i < hi ==> (#[trigger] f(i)).no_duplicates(),
        forall|i: int, j: int, x: T|
            lo <= i < j < hi && #[trigger] f(i).contains(x) ==> !#[trigger] f(j).contains(x),
    ensures
        concat_range(lo, hi, f).no_duplicates(),
    decreases hi - lo,
{
    if hi > lo {
        lemma_concat_no_duplicates(lo, hi - 1, f);
        let init = concat_range(lo, hi - 1, f);
        let last = f(hi - 1);
        assert forall|a: int, b: int| 0 <= a < b < (init + last).len() implies (init + last)[a] != (
        init + last)[b] by {
            if b < init.len() {
            } else if a >= init.len() {
                assert(last[a - init.len()] != last[b - init.len()]);
            } else {
                let x = init[a];
                if last[b - init.len()] == x {
                    assert(init.contains(x));
                    assert(last.contains(x));
                    lemma_concat_contains(lo, hi - 1, f, x);
                    let i = choose|i: int| lo <= i < hi - 1 && (#[trigger] f(i)).contains(x);
                    assert(!f(hi - 1).contains(x));
                }
            }
        }
    }
}

} // verus!
