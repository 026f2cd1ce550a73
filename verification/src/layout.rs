//! Scatter layouts.

use crate::element::RmaElement;
use crate::error::Error;
use crate::sort;
use crate::sort::number_in_order;
use std::marker::PhantomData;
use vstd::prelude::*;

verus! {

/// A validated scatter target in a window of `T`.
///
/// Values are associated in order: origin value `i` is put at index `i` of the
/// list that the layout was made of. Indices are distinct and in bounds.
pub struct Indexed<T: RmaElement> {
    displacements: Vec<isize>,
    len: usize,
    bound: usize,
    _element: PhantomData<T>,
}

/// The greatest of the indices.
pub open spec fn greatest(indices: Seq<usize>) -> usize
    recommends
        indices.len() > 0,
    decreases indices.len(),
{
    if indices.len() <= 1 {
        indices[0]
    } else {
        let rest = greatest(indices.drop_last());
        if rest >= indices.last() {
            rest
        } else {
            indices.last()
        }
    }
}

/// Why no layout of elements of `width` bytes is made of these indices.
pub open spec fn layout_fault(indices: Seq<usize>, window_len: usize, width: nat) -> Option<
    Error,
> {
    if indices.len() == 0 {
        Some(Error::Layout("layout is empty"))
    } else if !indices.no_duplicates() {
        Some(Error::Layout("target entries overlap"))
    } else if greatest(indices) >= window_len {
        Some(Error::Range { start: greatest(indices), len: 1, window: window_len })
    } else if greatest(indices) * width > isize::MAX {
        Some(Error::SizeOverflow)
    } else {
        None
    }
}

/// The greatest index is one of the indices and bounds them all.
pub proof fn greatest_bounds(indices: Seq<usize>)
    requires
        indices.len() > 0,
    ensures
        indices.contains(greatest(indices)),
        forall|i: int| 0 <= i < indices.len() ==> indices[i] <= greatest(indices),
    decreases indices.len(),
{
    if indices.len() > 1 {
        let rest = indices.drop_last();
        greatest_bounds(rest);
        let i = choose|i: int| 0 <= i < rest.len() && rest[i] == greatest(rest);
        assert(indices[i] == greatest(rest));
        assert(indices[indices.len() - 1] == indices.last());
        assert forall|i: int| 0 <= i < indices.len() implies indices[i] <= greatest(indices) by {
            if i < rest.len() {
                assert(rest[i] == indices[i]);
            }
        }
    }
}

impl<T: RmaElement> Indexed<T> {
    #[verifier::type_invariant]
    spec fn well_formed(self) -> bool {
        &&& self.len > 0
        &&& self.displacements@.len() == self.len
    }

    /// The byte displacement of each target.
    pub closed spec fn spec_displacements(&self) -> Seq<isize> {
        self.displacements@
    }

    /// The number of targets.
    pub closed spec fn spec_len(&self) -> usize {
        self.len
    }

    /// The length that a window needs to hold every target.
    pub closed spec fn spec_bound(&self) -> usize {
        self.bound
    }

    /// Accepts distinct indices that lie in a window of `window_len` elements.
    pub fn new(indices: &[usize], window_len: usize) -> (layout: Result<Self, Error>)
        ensures
            match layout_fault(indices@, window_len, T::spec_element().width() as nat) {
                Some(error) => layout == Err::<Self, Error>(error),
                None => {
                    &&& layout matches Ok(made)
                    &&& made.spec_len() == indices@.len()
                    &&& made.spec_bound() == greatest(indices@) + 1
                    &&& forall|i: int|
                        0 <= i < indices@.len() ==> (#[trigger] indices@[i]) < made.spec_bound()
                            <= window_len
                    &&& made.spec_displacements() == Seq::new(
                        indices@.len(),
                        |i: int| (indices@[i] * T::spec_element().width()) as isize,
                    )
                },
            },
    {
        if indices.len() == 0 {
            return Err(Error::Layout("layout is empty"));
        }
        let mut keys: Vec<u64> = Vec::with_capacity(indices.len());
        let mut i: usize = 0;
        while i < indices.len()
            invariant
                i <= indices@.len(),
                keys@ == Seq::new(i as nat, |k: int| indices@[k] as u64),
            decreases indices@.len() - i,
        {
            keys.push(indices[i] as u64);
            i += 1;
            assert(keys@ =~= Seq::new(i as nat, |k: int| indices@[k] as u64));
        }
        let sorted: Vec<(u64, usize)> = number_in_order(&keys);
        let mut i: usize = 1;
        while i < sorted.len()
            invariant
                1 <= i <= sorted@.len(),
                sort::numbered_in_order(sorted@, keys@),
                keys@ == Seq::new(indices@.len(), |k: int| indices@[k] as u64),
                forall|a: int, b: int|
                    0 <= a < b < i ==> (#[trigger] sorted@[a]).0 < (#[trigger] sorted@[b]).0,
            decreases sorted@.len() - i,
        {
            if sorted[i - 1].0 == sorted[i].0 {
                proof {
                    let a = sorted@[i - 1].1 as int;
                    let b = sorted@[i as int].1 as int;
                    assert(keys@[a] == sorted@[i - 1].0);
                    assert(keys@[b] == sorted@[i as int].0);
                    assert(indices@[a] == indices@[b] && a != b);
                }
                return Err(Error::Layout("target entries overlap"));
            }
            assert(sort::pair_le(sorted@[i - 1], sorted@[i as int]));
            i += 1;
        }
        let last: usize = sorted[sorted.len() - 1].1;
        let most: usize = indices[last];
        proof {
            assert(indices@.no_duplicates()) by {
                assert forall|a: int, b: int|
                    0 <= a < indices@.len() && 0 <= b < indices@.len() && a != b implies indices@[a]
                    != indices@[b] by {
                    assert(keys@[a] == indices@[a] as u64);
                    assert(keys@[b] == indices@[b] as u64);
                    assert(sorted@.contains((keys@[a], a as usize)));
                    assert(sorted@.contains((keys@[b], b as usize)));
                    let m = choose|m: int|
                        0 <= m < sorted@.len() && sorted@[m] == (keys@[a], a as usize);
                    let n = choose|n: int|
                        0 <= n < sorted@.len() && sorted@[n] == (keys@[b], b as usize);
                    if m < n {
                        assert(sorted@[m].0 < sorted@[n].0);
                    } else if n < m {
                        assert(sorted@[n].0 < sorted@[m].0);
                    }
                }
            }
            greatest_bounds(indices@);
            let g = choose|g: int| 0 <= g < indices@.len() && indices@[g] == greatest(indices@);
            assert(keys@[g] == indices@[g] as u64);
            assert(sorted@.contains((keys@[g], g as usize)));
            let m = choose|m: int| 0 <= m < sorted@.len() && sorted@[m] == (keys@[g], g as usize);
            if m < sorted@.len() - 1 {
                assert(sorted@[m].0 < sorted@[sorted@.len() - 1].0);
            }
            assert(keys@[last as int] == indices@[last as int] as u64);
            assert(most == greatest(indices@));
        }
        if most >= window_len {
            return Err(Error::Range { start: most, len: 1, window: window_len });
        }
        let width: usize = T::element().width();
        match most.checked_mul(width) {
            None => {
                return Err(Error::SizeOverflow);
            },
            Some(bytes) => {
                if bytes > isize::MAX as usize {
                    return Err(Error::SizeOverflow);
                }
            },
        }
        let mut displacements: Vec<isize> = Vec::with_capacity(indices.len());
        let mut i: usize = 0;
        while i < indices.len()
            invariant
                i <= indices@.len(),
                1 <= width <= 8,
                most * width <= isize::MAX,
                forall|k: int| 0 <= k < indices@.len() ==> indices@[k] <= most,
                displacements@ == Seq::new(i as nat, |k: int| (indices@[k] * width) as isize),
            decreases indices@.len() - i,
        {
            assert(indices@[i as int] * width <= most * width) by (nonlinear_arith)
                requires
                    indices@[i as int] <= most,
                    1 <= width,
            ;
            assert(0 <= indices@[i as int] * width) by (nonlinear_arith)
                requires
                    0 <= indices@[i as int],
                    1 <= width,
            ;
            displacements.push((indices[i] * width) as isize);
            i += 1;
            assert(displacements@ =~= Seq::new(
                i as nat,
                |k: int| (indices@[k] * width) as isize,
            ));
        }
        assert forall|i: int| 0 <= i < indices@.len() implies (#[trigger] indices@[i]) <= most by {
        }
        Ok(Indexed { displacements, len: indices.len(), bound: most + 1, _element: PhantomData })
    }

    /// The number of targets.
    #[verifier::when_used_as_spec(spec_len)]
    pub fn len(&self) -> (len: usize)
        ensures
            len == self.spec_len(),
    {
        self.len
    }

    /// A layout is never empty.
    pub fn is_empty(&self) -> (empty: bool)
        ensures
            !empty,
            empty == (self.spec_len() == 0),
    {
        proof {
            use_type_invariant(self);
        }
        false
    }

    /// The length that a window needs to hold every target.
    #[verifier::when_used_as_spec(spec_bound)]
    pub fn bound(&self) -> (bound: usize)
        ensures
            bound == self.spec_bound(),
    {
        self.bound
    }

    /// The byte displacement of each target, in the order of the origin values.
    pub fn displacements(&self) -> (displacements: &Vec<isize>)
        ensures
            displacements@ == self.spec_displacements(),
    {
        &self.displacements
    }
}

/// Distinct indices become distinct displacements: no two origin values of an
/// accepted layout are put into the same place, nor do two places overlap.
pub proof fn accepted_targets_do_not_overlap(
    indices: Seq<usize>,
    window_len: usize,
    width: nat,
    i: int,
    j: int,
)
    requires
        width > 0,
        layout_fault(indices, window_len, width) is None,
        0 <= i < indices.len(),
        0 <= j < indices.len(),
        i != j,
    ensures
        indices[i] < window_len,
        indices[i] * width + width <= indices[j] * width || indices[j] * width + width
            <= indices[i] * width,
{
    greatest_bounds(indices);
    let a = indices[i] as int;
    let b = indices[j] as int;
    assert(a * width + width <= b * width || b * width + width <= a * width) by (nonlinear_arith)
        requires
            a != b,
            width > 0,
    ;
}

/// A layout is made exactly of distinct indices that lie in the window and whose bytes
/// an address reaches, at least one of them. Else it is refused for what is wrong: it is
/// empty, then it repeats an index, then an index lies outside, the greatest of them
/// being named, then a byte cannot be reached.
pub proof fn distinct_indices_in_bounds_are_accepted(
    indices: Seq<usize>,
    window_len: usize,
    width: nat,
    i: int,
)
    requires
        0 <= i < indices.len(),
    ensures
        ({
            let fault = layout_fault(indices, window_len, width);
            let distinct = forall|a: int, b: int|
                0 <= a < b < indices.len() ==> indices[a] != indices[b];
            let inside = forall|a: int| 0 <= a < indices.len() ==> indices[a] < window_len;
            let reached = forall|a: int|
                0 <= a < indices.len() ==> #[trigger] indices[a] * width <= isize::MAX;
            &&& distinct && inside && reached <==> fault is None
            &&& !distinct ==> fault == Some(Error::Layout("target entries overlap"))
            &&& distinct && indices[i] >= window_len && (forall|a: int|
                0 <= a < indices.len() ==> indices[a] <= indices[i]) ==> fault == Some(
                Error::Range { start: indices[i], len: 1, window: window_len },
            )
            &&& distinct && inside && !reached ==> fault == Some(Error::SizeOverflow)
        }),
        layout_fault(Seq::<usize>::empty(), window_len, width) == Some(
            Error::Layout("layout is empty"),
        ),
{
    greatest_bounds(indices);
    let g = choose|g: int| 0 <= g < indices.len() && indices[g] == greatest(indices);
    assert forall|a: int| 0 <= a < indices.len() implies #[trigger] indices[a] * width
        <= greatest(indices) * width by {
        let x = indices[a] as int;
        let y = greatest(indices) as int;
        assert(x * width <= y * width) by (nonlinear_arith)
            requires
                x <= y,
                width >= 0,
        ;
    }
    assert(indices[g] * width == greatest(indices) * width);
    if indices.no_duplicates() {
        assert forall|a: int, b: int| 0 <= a < b < indices.len() implies indices[a]
            != indices[b] by {
        }
    } else if forall|a: int, b: int| 0 <= a < b < indices.len() ==> indices[a] != indices[b] {
        assert forall|a: int, b: int|
            0 <= a < indices.len() && 0 <= b < indices.len() && a != b implies indices[a]
            != indices[b] by {
            if a < b {
            } else {
                assert(indices[b] != indices[a]);
            }
        }
        assert(indices.no_duplicates());
    }
}

} // verus!
