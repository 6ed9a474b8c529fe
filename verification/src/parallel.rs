//! The calls into rayon that the sorting engine makes.
use vstd::prelude::*;
use rayon::iter::{IntoParallelIterator, ParallelIterator};
use rayon::slice::ParallelSliceMut;
use crate::multimerge::{contagem_vazia, contar_bloco, somar_contagens, sort_recursivo_paralelo};
use crate::trend::{capped, chunk_ascents, chunk_descents, TAMANHO_BLOCO};
use crate::order::total_order;
use crate::sorted::is_stable_sort_of;
use crate::text::bytes_sorted;

verus! {

/// `rayon::join`, with one closure sorting `left` through `left_buf` and the
/// other sorting `right` through `right_buf`, both by `sort_recursivo_paralelo`.
/// rayon runs both closures to completion, possibly in parallel, before it
/// returns; this contract is `sort_recursivo_paralelo`'s, once for each half.
#[verifier::external_body]
pub(crate) fn join_sorts<T: Ord + Copy + Send>(
    left: &mut [T],
    left_buf: &mut [T],
    right: &mut [T],
    right_buf: &mut [T],
    threshold: usize,
)
    requires
        total_order::<T>(),
        threshold >= 1,
        1 <= old(left)@.len() <= old(left_buf)@.len(),
        1 <= old(right)@.len() <= old(right_buf)@.len(),
    ensures
        final(left_buf)@.len() == old(left_buf)@.len(),
        final(right_buf)@.len() == old(right_buf)@.len(),
        is_stable_sort_of(old(left)@, final(left)@),
        is_stable_sort_of(old(right)@, final(right)@),
{
    rayon::join(
        || sort_recursivo_paralelo(left, left_buf, threshold),
        || sort_recursivo_paralelo(right, right_buf, threshold),
    );
}

/// `rayon::current_num_threads`: the size of the current thread pool, which
/// rayon builds with at least one thread. It depends on the machine and the
/// environment, so nothing more is stated.
#[verifier::external_body]
pub(crate) fn current_num_threads() -> (r: usize)
    ensures
        r >= 1,
{
    rayon::current_num_threads()
}

/// `ParallelSliceMut::par_sort`: a parallel stable sort; rayon documents that
/// it sorts by `Ord` and does not reorder equal elements.
#[verifier::external_body]
pub(crate) fn par_sort<T: Ord + Send>(arr: &mut [T])
    requires
        total_order::<T>(),
    ensures
        is_stable_sort_of(old(arr)@, final(arr)@),
{
    arr.par_sort();
}

/// `(0..qtd_blocos).into_par_iter().map(..).reduce(..)`: counts the rising and
/// falling steps of each chunk with `contar_bloco`, and combines the counts with
/// `somar_contagens`, starting from `contagem_vazia`. rayon applies the
/// combining step in an order it chooses; since that step is an associative
/// saturating sum with `(0, 0)` as identity, the result is the capped sum over
/// all chunks.
#[verifier::external_body]
pub(crate) fn contar_tendencias<T: Ord + Sync>(arr: &[T], qtd_blocos: usize) -> (r: (usize, usize))
    requires
        total_order::<T>(),
        qtd_blocos == 0 || (qtd_blocos - 1) * TAMANHO_BLOCO < arr@.len(),
    ensures
        r.0 == capped(chunk_ascents(arr@, qtd_blocos as int)),
        r.1 == capped(chunk_descents(arr@, qtd_blocos as int)),
{
    (0..qtd_blocos).into_par_iter().map(|i| contar_bloco(arr, i)).reduce(contagem_vazia, somar_contagens)
}

/// `ParallelSliceMut::par_sort_unstable` on byte strings, which `Ord` orders
/// lexicographically: afterwards they are sorted and are the same byte strings,
/// as often as before. The sort is unstable, but equal byte strings are
/// identical, so which of them comes first cannot be seen.
#[verifier::external_body]
pub(crate) fn par_sort_unstable_bytes(fields: &mut Vec<Vec<u8>>)
    ensures
        final(fields).deep_view().to_multiset() == old(fields).deep_view().to_multiset(),
        bytes_sorted(final(fields).deep_view()),
{
    fields.par_sort_unstable();
}

} // verus!
