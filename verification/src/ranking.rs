use vstd::prelude::*;

use permutation::Permutation;

use crate::chromosome::Chromosome;

verus! {

/// `permutation::Permutation`, which orders the population of a genetic
/// controller by score.  It is carried through as it is; what it holds is
/// named below.
#[verifier::external_type_specification]
#[verifier::external_body]
pub struct ExPermutation(permutation::Permutation);

/// The indices that a `permutation::Permutation` stores (its private field
/// `indices`).  Nothing in this library computes them: they are what the
/// crate made.
pub uninterp spec fn permutation_indices(p: Permutation) -> Seq<usize>;

/// Whether a `permutation::Permutation` stores its indices in forward form
/// (its private field `forward`: so `Permutation::oneline` makes it) or in
/// backward form (so `permutation::sort_by` makes it).
pub uninterp spec fn permutation_is_forward(p: Permutation) -> bool;

/// `idx` holds every index below its length exactly once.
pub open spec fn is_bijection(idx: Seq<usize>) -> bool {
    &&& forall|k: int| 0 <= k < idx.len() ==> #[trigger] idx[k] < idx.len()
    &&& forall|j: int, k: int|
        0 <= j < idx.len() && 0 <= k < idx.len() && j != k ==> #[trigger] idx[j] != #[trigger] idx[k]
}

/// The sequence that applying a permutation with indices `idx` to `s`
/// produces: in backward form position `k` receives `s[idx[k]]`; in forward
/// form the element at `k` moves to `idx[k]`.  (Where `idx` is no
/// bijection the permutation cannot be applied; the forward case then keeps
/// the positions that no index names.)
pub open spec fn permuted<T>(s: Seq<T>, idx: Seq<usize>, forward: bool) -> Seq<T> {
    if !forward {
        Seq::new(s.len(), |k: int| s[idx[k] as int])
    } else {
        Seq::new(
            s.len(),
            |j: int|
                if exists|k: int| 0 <= k < idx.len() && idx[k] == j {
                    s[choose|k: int| 0 <= k < idx.len() && idx[k] == j]
                } else {
                    s[j]
                },
        )
    }
}

/// `Permutation::len`: the crate returns `self.indices.len()`, the number of
/// indices the permutation holds.
#[verifier::external_body]
pub(crate) fn ranking_len(ranking: &Permutation) -> (r: usize)
    ensures
        r == permutation_indices(*ranking).len(),
{
    ranking.len()
}

/// `Permutation::valid`: the crate sorts a copy of the indices and compares
/// it with `0, 1, ..., n - 1`, so the result tells whether the indices hold
/// every position below their count exactly once.
#[verifier::external_body]
pub(crate) fn ranking_is_valid(ranking: &Permutation) -> (r: bool)
    ensures
        r == is_bijection(permutation_indices(*ranking)),
{
    ranking.valid()
}

/// `Permutation::apply_slice_in_place`: the crate walks the cycles of the
/// indices and swaps along them, so that in backward form position `k`
/// receives the element at `indices[k]`, and in forward form the element at
/// `k` moves to `indices[k]` (as `permuted` states).  The marks it sets on
/// the indices while it works are all cleared again, so the permutation is
/// the same afterwards.  The crate asserts that the lengths agree and stay
/// within `isize::MAX`, and debug-asserts that the indices form a
/// permutation: those inputs are left out.
#[verifier::external_body]
pub(crate) fn apply_ranking(ranking: &mut Permutation, population: &mut Vec<Chromosome>)
    requires
        permutation_indices(*old(ranking)).len() == old(population)@.len(),
        is_bijection(permutation_indices(*old(ranking))),
        old(population)@.len() <= isize::MAX,
    ensures
        final(population)@ == permuted(
            old(population)@,
            permutation_indices(*old(ranking)),
            permutation_is_forward(*old(ranking)),
        ),
        permutation_indices(*final(ranking)) == permutation_indices(*old(ranking)),
        permutation_is_forward(*final(ranking)) == permutation_is_forward(*old(ranking)),
{
    ranking.apply_slice_in_place(population)
}

} // verus!
