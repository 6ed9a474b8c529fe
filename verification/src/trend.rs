//! Counting the rising and falling steps between neighbours, chunk by chunk,
//! as the global trend check does.
use vstd::prelude::*;
use vstd::arithmetic::div_mod::{lemma_fundamental_div_mod, lemma_mod_bound};
use crate::order::{lemma_order_laws, ord_le, ord_lt, total_order};
use crate::sorted::sorted;

verus! {

/// The width of the chunks that the trend check counts in parallel.
pub const TAMANHO_BLOCO: usize = 32768;

/// How many `k` in `from..to` have `s[k - 1] < s[k]`.
pub open spec fn ascents<T: Ord>(s: Seq<T>, from: int, to: int) -> nat
    decreases to - from,
{
    if to <= from {
        0
    } else {
        ascents(s, from, to - 1) + (if ord_lt(s[to - 2], s[to - 1]) { 1nat } else { 0nat })
    }
}

/// How many `k` in `from..to` have `s[k - 1] > s[k]`.
pub open spec fn descents<T: Ord>(s: Seq<T>, from: int, to: int) -> nat
    decreases to - from,
{
    if to <= from {
        0
    } else {
        descents(s, from, to - 1) + (if ord_lt(s[to - 1], s[to - 2]) { 1nat } else { 0nat })
    }
}

/// Falling steps between neighbours in all of `s`.
pub open spec fn falling_steps<T: Ord>(s: Seq<T>) -> nat {
    descents(s, 1, s.len() as int)
}

/// Where chunk `i` of `s` ends: one element past its width, so that the step
/// into the next chunk is counted, but not past the end of `s`.
pub open spec fn chunk_end(n: int, i: int) -> int {
    if i * TAMANHO_BLOCO + TAMANHO_BLOCO + 1 < n {
        i * TAMANHO_BLOCO + TAMANHO_BLOCO + 1
    } else {
        n
    }
}

/// Rising steps counted by the first `q` chunks.
pub open spec fn chunk_ascents<T: Ord>(s: Seq<T>, q: int) -> nat
    decreases q,
{
    if q <= 0 {
        0
    } else {
        chunk_ascents(s, q - 1) + ascents(s, (q - 1) * TAMANHO_BLOCO + 1, chunk_end(s.len() as int, q - 1))
    }
}

/// Falling steps counted by the first `q` chunks.
pub open spec fn chunk_descents<T: Ord>(s: Seq<T>, q: int) -> nat
    decreases q,
{
    if q <= 0 {
        0
    } else {
        chunk_descents(s, q - 1) + descents(s, (q - 1) * TAMANHO_BLOCO + 1, chunk_end(s.len() as int, q - 1))
    }
}

/// `x`, or `usize::MAX` where `x` is larger.
pub open spec fn capped(x: nat) -> nat {
    if x > usize::MAX {
        usize::MAX as nat
    } else {
        x
    }
}

/// The number of chunks that cover `n` elements.
pub open spec fn chunk_count(n: int) -> int {
    n / (TAMANHO_BLOCO as int) + (if n % (TAMANHO_BLOCO as int) != 0 { 1int } else { 0int })
}

pub proof fn lemma_steps_split<T: Ord>(s: Seq<T>, a: int, b: int, c: int)
    requires
        a <= b <= c,
    ensures
        ascents(s, a, c) == ascents(s, a, b) + ascents(s, b, c),
        descents(s, a, c) == descents(s, a, b) + descents(s, b, c),
    decreases c - b,
{
    if c > b {
        lemma_steps_split(s, a, b, c - 1);
    }
}

pub proof fn lemma_steps_bound<T: Ord>(s: Seq<T>, a: int, b: int)
    requires
        a <= b,
    ensures
        ascents(s, a, b) <= b - a,
        descents(s, a, b) <= b - a,
    decreases b - a,
{
    if b > a {
        lemma_steps_bound(s, a, b - 1);
    }
}

/// The chunks cover exactly the steps of the whole sequence, each step once.
pub proof fn lemma_chunks_cover<T: Ord>(s: Seq<T>, q: int)
    requires
        0 <= q,
        q == 0 || (q - 1) * TAMANHO_BLOCO < s.len(),
    ensures
        chunk_ascents(s, q) == ascents(s, 1, if q * TAMANHO_BLOCO + 1 < s.len() { q * TAMANHO_BLOCO + 1 } else { s.len() as int }),
        chunk_descents(s, q) == descents(s, 1, if q * TAMANHO_BLOCO + 1 < s.len() { q * TAMANHO_BLOCO + 1 } else { s.len() as int }),
    decreases q,
{
    if q > 0 {
        if q - 1 > 0 {
            assert((q - 2) * TAMANHO_BLOCO < s.len());
        }
        lemma_chunks_cover(s, q - 1);
        let lo = (q - 1) * TAMANHO_BLOCO + 1;
        let mid = if lo < s.len() { lo } else { s.len() as int };
        assert(q * TAMANHO_BLOCO == (q - 1) * TAMANHO_BLOCO + TAMANHO_BLOCO);
        if s.len() >= 1 {
            lemma_steps_split(s, 1, mid, chunk_end(s.len() as int, q - 1));
        }
    }
}

/// The chunk count covers `n` elements, and each chunk starts inside them.
pub proof fn lemma_chunk_count(n: int)
    requires
        n >= 1,
    ensures
        chunk_count(n) >= 1,
        (chunk_count(n) - 1) * TAMANHO_BLOCO < n,
        chunk_count(n) * TAMANHO_BLOCO + 1 >= n,
        chunk_count(n) <= n,
{
    let c = TAMANHO_BLOCO as int;
    lemma_fundamental_div_mod(n, c);
    lemma_mod_bound(n, c);
    assert(c * (n / c) == (n / c) * c) by (nonlinear_arith);
    assert(n / c >= 0) by (nonlinear_arith) requires n >= 1, c > 0;
}

/// With no falling step, every element is `<=` the next.
pub proof fn lemma_no_descents_adjacent<T: Ord>(s: Seq<T>, to: int)
    requires
        total_order::<T>(),
        1 <= to <= s.len(),
        descents(s, 1, to) == 0,
    ensures
        forall|k: int| 1 <= k < to ==> ord_le(#[trigger] s[k - 1], s[k]),
    decreases to,
{
    lemma_order_laws::<T>();
    if to > 1 {
        lemma_no_descents_adjacent(s, to - 1);
    }
}

/// A sequence whose every element is `<=` the next is sorted.
pub proof fn lemma_adjacent_sorted<T: Ord>(s: Seq<T>)
    requires
        total_order::<T>(),
        forall|k: int| 1 <= k < s.len() ==> ord_le(#[trigger] s[k - 1], s[k]),
    ensures
        sorted(s),
{
    lemma_order_laws::<T>();
    assert forall|i: int, j: int| 0 <= i < j < s.len() implies ord_le(#[trigger] s[i], #[trigger] s[j]) by {
        lemma_adjacent_le_from(s, i, j);
    }
}

proof fn lemma_adjacent_le_from<T: Ord>(s: Seq<T>, i: int, j: int)
    requires
        total_order::<T>(),
        forall|k: int| 1 <= k < s.len() ==> ord_le(#[trigger] s[k - 1], s[k]),
        0 <= i <= j < s.len(),
    ensures
        ord_le(s[i], s[j]),
    decreases j - i,
{
    lemma_order_laws::<T>();
    if j > i {
        lemma_adjacent_le_from(s, i, j - 1);
        assert(ord_le(s[j - 1], s[j]));
    }
}

/// No falling step: sorted as it stands.
pub proof fn lemma_no_falling_sorted<T: Ord>(s: Seq<T>)
    requires
        total_order::<T>(),
        s.len() >= 1,
        falling_steps(s) == 0,
    ensures
        sorted(s),
{
    lemma_no_descents_adjacent(s, s.len() as int);
    lemma_adjacent_sorted(s);
}

/// A step cannot both rise and fall, so rising and falling steps together
/// number at most the steps in the range.
pub proof fn lemma_steps_exclusive<T: Ord>(s: Seq<T>, a: int, b: int)
    requires
        total_order::<T>(),
        a <= b,
    ensures
        ascents(s, a, b) + descents(s, a, b) <= b - a,
    decreases b - a,
{
    lemma_order_laws::<T>();
    if b > a {
        lemma_steps_exclusive(s, a, b - 1);
    }
}

/// When every step from 1 up to `to` falls, every element is `>` the next.
pub proof fn lemma_all_falling_adjacent<T: Ord>(s: Seq<T>, to: int)
    requires
        1 <= to <= s.len(),
        descents(s, 1, to) == to - 1,
    ensures
        forall|k: int| 1 <= k < to ==> ord_lt(#[trigger] s[k], s[k - 1]),
    decreases to,
{
    if to > 1 {
        lemma_steps_bound(s, 1, to - 1);
        lemma_all_falling_adjacent(s, to - 1);
    }
}

/// Whether `s[i] <= s[i + 1]`: the direction of the step out of `i`.
pub open spec fn rises_at<T: Ord>(s: Seq<T>, i: int) -> bool {
    ord_le(s[i], s[i + 1])
}

/// How many `i` in `from..to` step in a different direction from `i - 1`.
pub open spec fn direction_changes<T: Ord>(s: Seq<T>, from: int, to: int) -> nat
    decreases to - from,
{
    if to <= from {
        0
    } else {
        direction_changes(s, from, to - 1) + (if rises_at(s, to - 1) != rises_at(s, to - 2) { 1nat } else { 0nat })
    }
}

} // verus!
