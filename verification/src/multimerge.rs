//! The adaptive sorting engine: insertion sort for small inputs, a global
//! trend check, and a parallel stable merge sort.
use vstd::prelude::*;
use vstd::arithmetic::div_mod::lemma_fundamental_div_mod_converse;
use vstd::seq_lib::lemma_multiset_commutative;
use crate::parallel::{current_num_threads, join_sorts, par_sort};
use crate::parallel::contar_tendencias;
use crate::trend::{
    ascents, capped, chunk_count, chunk_end, descents, falling_steps, lemma_chunk_count,
    lemma_all_falling_adjacent, lemma_chunks_cover, lemma_no_falling_sorted, lemma_steps_exclusive,
    lemma_steps_bound, rises_at, direction_changes, TAMANHO_BLOCO,
};
use crate::order::{gt_ord, le_ord, lt_ord, lemma_order_laws, ord_le, ord_lt, total_order};
use crate::sorted::{
    is_stable_sort_of, keeps_tie_order, lemma_merge_rest_left, lemma_merge_rest_right,
    lemma_merge_take_left, lemma_merge_take_right, lemma_sorted_concat, lemma_sorted_push,
    lemma_sorted_subrange, lemma_ties_left_then_right, lemma_tie_order_concat, lemma_tie_order_refl,
    lemma_falling_reverse_is_stable_sort, lemma_tie_order_same_multiset, lemma_tie_order_swap,
    lemma_tie_order_trans, sorted,
    ties_left_then_right,
};

verus! {

broadcast use vstd::seq_lib::group_to_multiset_ensures;

/// How many times `n` is halved (rounding down) before it drops below 64.
pub open spec fn halvings(n: nat) -> nat
    decreases n,
{
    if n < 64 {
        0
    } else {
        1 + halvings(n / 2)
    }
}

/// `2^k`.
pub open spec fn power_of_two(k: nat) -> nat
    decreases k,
{
    if k == 0 {
        1
    } else {
        2 * power_of_two((k - 1) as nat)
    }
}

/// The run length for `n` elements: `n` divided by the power of two that brings
/// it below 64, rounded up.
pub open spec fn min_run(n: nat) -> nat {
    let d = power_of_two(halvings(n));
    n / d + (if n % d != 0 { 1nat } else { 0nat })
}

/// Computes `min_run(n)` by shifting `n` right until it is below 64, and adding
/// one if any bit shifted out was set.
pub fn calcular_minrun(n: usize) -> (r: usize)
    ensures
        r == min_run(n as nat),
        n >= 1 ==> 1 <= r <= n,
        n >= 64 ==> 32 <= r <= 64,
{
    let ghost orig = n as nat;
    let mut n = n;
    let mut r: usize = 0;
    let ghost mut steps: nat = 0;
    let ghost mut rem: nat = 0;
    assert(power_of_two(0) == 1);
    assert(n * power_of_two(0) == n);
    while n >= 64
        invariant
            orig == n * power_of_two(steps) + rem,
            rem < power_of_two(steps),
            r <= 1,
            (r == 1) == (rem != 0),
            halvings(orig) == steps + halvings(n as nat),
            orig >= 64 ==> n >= 32,
        decreases n,
    {
        let b = n & 1;
        assert(b == n % 2 && b <= 1) by (bit_vector)
            requires b == n & 1;
        let r2 = r | b;
        assert(r2 == (if r == 1 || b == 1 { 1usize } else { 0usize })) by (bit_vector)
            requires r2 == r | b, r <= 1, b <= 1;
        let half = n >> 1;
        assert(half == n / 2) by (bit_vector)
            requires half == n >> 1;
        proof {
            let p = power_of_two(steps);
            assert(power_of_two(steps + 1) == 2 * p);
            assert(n * p == half * (2 * p) + b * p) by (nonlinear_arith)
                requires n == 2 * half + b;
            assert(b * p <= p) by (nonlinear_arith)
                requires b <= 1, p >= 0;
            rem = (b * p + rem) as nat;
            steps = steps + 1;
            assert(b * p == 0 <==> b == 0) by (nonlinear_arith)
                requires p >= 1, b <= 1;
        }
        r = r2;
        n = half;
    }
    proof {
        let d = power_of_two(steps);
        lemma_fundamental_div_mod_converse(orig as int, d as int, n as int, rem as int);
        if orig >= 1 && orig >= 64 {
            assert(d >= 2);
            assert(n * d >= 2 * n) by (nonlinear_arith)
                requires d >= 2, n >= 0;
        }
    }
    n + r
}

/// Sorts `arr` in place by repeatedly swapping an element with its left
/// neighbour while that neighbour is greater; equal elements are never swapped.
pub fn insertion_sort<T: Ord>(arr: &mut [T])
    requires
        total_order::<T>(),
    ensures
        is_stable_sort_of(old(arr)@, final(arr)@),
{
    let n = arr.len();
    proof {
        lemma_order_laws::<T>();
        lemma_tie_order_refl(arr@);
    }
    let mut i: usize = 1;
    while i < n
        invariant
            total_order::<T>(),
            arr@.len() == n,
            1 <= i,
            i <= n || n == 0,
            sorted(arr@.subrange(0, i as int)) || n == 0,
            keeps_tie_order(old(arr)@, arr@),
        decreases n - i,
    {
        proof {
            let s = arr@.subrange(0, i as int);
            assert forall|a: int, b: int| 0 <= a < b < i implies ord_le(#[trigger] arr@[a], #[trigger] arr@[b]) by {
                assert(s[a] == arr@[a] && s[b] == arr@[b]);
            }
        }
        let mut j: usize = i;
        while j > 0 && gt_ord(&arr[j - 1], &arr[j])
            invariant
                total_order::<T>(),
                arr@.len() == n,
                0 <= j <= i < n,
                forall|a: int, b: int|
                    0 <= a < b <= i && a != j && b != j ==> ord_le(#[trigger] arr@[a], #[trigger] arr@[b]),
                forall|k: int| j < k <= i ==> ord_lt(arr@[j as int], #[trigger] arr@[k]),
                keeps_tie_order(old(arr)@, arr@),
            decreases j,
        {
            proof {
                lemma_order_laws::<T>();
                lemma_tie_order_swap(arr@, j - 1);
                lemma_tie_order_trans(old(arr)@, arr@, arr@.update(j - 1, arr@[j as int]).update(j as int, arr@[j - 1]));
            }
            arr.swap(j - 1, j);
            j -= 1;
        }
        proof {
            lemma_order_laws::<T>();
            let s = arr@.subrange(0, i + 1);
            assert forall|a: int, b: int| 0 <= a < b < s.len() implies ord_le(#[trigger] s[a], #[trigger] s[b]) by {
                if b == j {
                    if a < j - 1 {
                        assert(ord_le(arr@[a], arr@[j - 1]));
                    }
                } else if a == j {
                    assert(ord_lt(arr@[j as int], arr@[b]));
                }
            }
        }
        i += 1;
    }
    proof {
        if n > 0 {
            assert(arr@.subrange(0, n as int) =~= arr@);
        }
        lemma_tie_order_same_multiset(old(arr)@, arr@);
    }
}

/// Copies `src[from..to]` over `dst[at..at + (to - from)]`, leaving the rest of `dst` as it was.
fn copy_run<T: Copy>(dst: &mut [T], src: &[T], from: usize, to: usize, at: usize)
    requires
        from <= to <= src@.len(),
        at + (to - from) <= old(dst)@.len(),
    ensures
        final(dst)@ == old(dst)@.subrange(0, at as int) + src@.subrange(from as int, to as int)
            + old(dst)@.subrange(at + (to - from), old(dst)@.len() as int),
{
    let dlen = dst.len();
    let mut t: usize = from;
    while t < to
        invariant
            from <= t <= to <= src@.len(),
            at + (to - from) <= dlen,
            dst@.len() == dlen,
            dlen == old(dst)@.len(),
            forall|q: int| 0 <= q < dst@.len() ==> #[trigger] dst@[q] == (if at <= q < at + (t - from) {
                src@[q - at + from]
            } else {
                old(dst)@[q]
            }),
        decreases to - t,
    {
        dst[at + (t - from)] = src[t];
        t += 1;
    }
    assert(dst@ =~= old(dst)@.subrange(0, at as int) + src@.subrange(from as int, to as int)
        + old(dst)@.subrange(at + (to - from), old(dst)@.len() as int));
}

/// The merge of `l` and `r`: repeatedly take the first element of `l` when it
/// is `<=` the first element of `r`, else the first element of `r`; once one
/// run is empty, the rest of the other follows.
pub open spec fn merge_runs<T: Ord>(l: Seq<T>, r: Seq<T>) -> Seq<T>
    decreases l.len() + r.len(),
{
    if l.len() == 0 {
        r
    } else if r.len() == 0 {
        l
    } else if ord_le(l[0], r[0]) {
        seq![l[0]] + merge_runs(l.drop_first(), r)
    } else {
        seq![r[0]] + merge_runs(l, r.drop_first())
    }
}

/// Merges the runs `arr[..meio]` and `arr[meio..]` through `buffer[..arr.len()]`,
/// taking from the left run on ties. Every element is kept whatever the runs
/// hold; when both runs are sorted the result is their stable merge, so equal
/// elements keep their order. `buffer` past `arr.len()` is not touched.
fn mesclar_estavel<T: Ord + Copy>(arr: &mut [T], buffer: &mut [T], meio: usize)
    requires
        total_order::<T>(),
        meio <= old(arr)@.len() <= old(buffer)@.len(),
    ensures
        final(buffer)@.len() == old(buffer)@.len(),
        final(buffer)@.subrange(old(arr)@.len() as int, old(buffer)@.len() as int)
            == old(buffer)@.subrange(old(arr)@.len() as int, old(buffer)@.len() as int),
        final(arr)@ == merge_runs(
            old(arr)@.subrange(0, meio as int),
            old(arr)@.subrange(meio as int, old(arr)@.len() as int),
        ),
        final(arr)@.len() == old(arr)@.len(),
        final(arr)@.to_multiset() == old(arr)@.to_multiset(),
        sorted(old(arr)@.subrange(0, meio as int)) && sorted(old(arr)@.subrange(meio as int, old(arr)@.len() as int))
            ==> is_stable_sort_of(old(arr)@, final(arr)@),
{
    let n = arr.len();
    let ghost a0 = arr@;
    let ghost b0 = buffer@;
    copy_run(buffer, arr, 0, n, 0);
    let ghost b1 = buffer@;
    let ghost left = a0.subrange(0, meio as int);
    let ghost right = a0.subrange(meio as int, n as int);
    let ghost ok = sorted(left) && sorted(right);
    proof {
        assert forall|q: int| 0 <= q < n implies #[trigger] buffer@[q] == a0[q] by {
            assert(buffer@[q] == a0.subrange(0, n as int)[q]);
        }
        assert(b1.subrange(n as int, b1.len() as int) =~= b0.subrange(n as int, b0.len() as int));
        assert(arr@.subrange(0, 0) =~= Seq::<T>::empty());
        assert(left.subrange(0, 0) =~= Seq::<T>::empty());
        assert(right.subrange(0, 0) =~= Seq::<T>::empty());
        assert(Seq::<T>::empty().to_multiset().add(Seq::<T>::empty().to_multiset()) =~= Seq::<T>::empty().to_multiset());
        assert(left.subrange(0, meio as int) =~= left);
        assert(right.subrange(0, n - meio) =~= right);
        assert(Seq::<T>::empty() + merge_runs(left, right) =~= merge_runs(left, right));
    }
    let mut i: usize = 0;
    let mut j: usize = meio;
    let mut k: usize = 0;
    while i < meio && j < n
        invariant
            total_order::<T>(),
            arr@.len() == n,
            a0.len() == n,
            buffer@ == b1,
            n <= b1.len(),
            meio <= n,
            left == a0.subrange(0, meio as int),
            right == a0.subrange(meio as int, n as int),
            ok == (sorted(left) && sorted(right)),
            forall|q: int| 0 <= q < n ==> #[trigger] buffer@[q] == a0[q],
            i <= meio <= j <= n,
            k == i + (j - meio),
            forall|q: int| j <= q < n ==> #[trigger] arr@[q] == a0[q],
            arr@.subrange(0, k as int).to_multiset()
                == left.subrange(0, i as int).to_multiset().add(right.subrange(0, j - meio).to_multiset()),
            merge_runs(left, right) == arr@.subrange(0, k as int) + merge_runs(
                left.subrange(i as int, meio as int),
                right.subrange(j - meio, n - meio),
            ),
            ok ==> sorted(arr@.subrange(0, k as int)),
            ok ==> forall|p: int| 0 <= p < k ==> (i < meio ==> ord_le(#[trigger] arr@[p], a0[i as int])) && (j < n
                ==> ord_le(arr@[p], a0[j as int])),
            ok ==> forall|q: int| meio <= q < j ==> (i < meio ==> ord_lt(#[trigger] a0[q], a0[i as int])),
            ok ==> ties_left_then_right(
                arr@.subrange(0, k as int),
                left.subrange(0, i as int),
                right.subrange(0, j - meio),
            ),
        decreases n - k,
    {
        proof {
            lemma_order_laws::<T>();
        }
        let ghost out = arr@.subrange(0, k as int);
        if le_ord(&buffer[i], &buffer[j]) {
            let x = buffer[i];
            proof {
                let li = left.subrange(i as int, meio as int);
                let rj = right.subrange(j - meio, n - meio);
                assert(li[0] == x && rj[0] == buffer@[j as int]);
                assert(li.drop_first() =~= left.subrange(i + 1, meio as int));
                assert(merge_runs(li, rj) == seq![x] + merge_runs(li.drop_first(), rj));
                assert(out + (seq![x] + merge_runs(li.drop_first(), rj)) =~= out.push(x) + merge_runs(li.drop_first(), rj));
                let r = right.subrange(0, j - meio);
                if ok {
                    assert forall|q: int| 0 <= q < r.len() implies ord_lt(#[trigger] r[q], x) by {
                        assert(r[q] == a0[meio + q]);
                    }
                    lemma_merge_take_left(out, left.subrange(0, i as int), r, x);
                    lemma_sorted_push(out, x);
                }
                assert(left.subrange(0, i as int).push(x) =~= left.subrange(0, i + 1));
                assert(out.push(x).to_multiset() =~= out.to_multiset().insert(x));
                assert(left.subrange(0, i as int).push(x).to_multiset() =~= left.subrange(0, i as int).to_multiset().insert(x));
                assert(left.subrange(0, i as int).to_multiset().insert(x).add(r.to_multiset())
                    =~= left.subrange(0, i as int).to_multiset().add(r.to_multiset()).insert(x));
            }
            arr[k] = x;
            i += 1;
            proof {
                assert(arr@.subrange(0, k + 1) =~= out.push(x));
                if ok && i < meio {
                    assert(ord_le(left[i - 1], left[i as int]));
                }
            }
        } else {
            let z = buffer[j];
            proof {
                let li = left.subrange(i as int, meio as int);
                let rj = right.subrange(j - meio, n - meio);
                assert(li[0] == buffer@[i as int] && rj[0] == z);
                assert(rj.drop_first() =~= right.subrange(j + 1 - meio, n - meio));
                assert(merge_runs(li, rj) == seq![z] + merge_runs(li, rj.drop_first()));
                assert(out + (seq![z] + merge_runs(li, rj.drop_first())) =~= out.push(z) + merge_runs(li, rj.drop_first()));
                let r = right.subrange(0, j - meio);
                if ok {
                    lemma_merge_take_right(out, left.subrange(0, i as int), r, z);
                    lemma_sorted_push(out, z);
                }
                assert(r.push(z) =~= right.subrange(0, j + 1 - meio));
                assert(out.push(z).to_multiset() =~= out.to_multiset().insert(z));
                assert(r.push(z).to_multiset() =~= r.to_multiset().insert(z));
                assert(left.subrange(0, i as int).to_multiset().add(r.to_multiset().insert(z))
                    =~= left.subrange(0, i as int).to_multiset().add(r.to_multiset()).insert(z));
            }
            arr[k] = z;
            j += 1;
            proof {
                assert(arr@.subrange(0, k + 1) =~= out.push(z));
                if ok && j < n {
                    assert(ord_le(right[j - 1 - meio], right[j - meio]));
                }
            }
        }
        k += 1;
    }
    let ghost out = arr@.subrange(0, k as int);
    proof {
        lemma_order_laws::<T>();
        lemma_multiset_commutative(left, right);
        assert(left + right =~= a0);
    }
    if i < meio {
        copy_run(arr, buffer, i, meio, k);
        proof {
            let l1 = left.subrange(0, i as int);
            let l2 = left.subrange(i as int, meio as int);
            assert(buffer@.subrange(i as int, meio as int) =~= l2);
            assert(arr@ =~= out + l2);
            assert(right.subrange(j - meio, n - meio).len() == 0);
            assert(merge_runs(l2, right.subrange(j - meio, n - meio)) == l2);
            let r = right.subrange(0, j - meio);
            assert(r =~= right);
            assert(l1 + l2 =~= left);
            lemma_multiset_commutative(out, l2);
            lemma_multiset_commutative(l1, l2);
            assert(arr@.to_multiset() =~= a0.to_multiset());
            if ok {
                assert forall|q: int, p: int| 0 <= q < r.len() && 0 <= p < l2.len() implies ord_lt(#[trigger] r[q], #[trigger] l2[p]) by {
                    assert(r[q] == a0[meio + q]);
                    assert(l2[p] == left[i + p]);
                    assert(ord_le(left[i as int], left[i + p]));
                }
                lemma_merge_rest_left(out, l1, l2, r);
                lemma_sorted_subrange(left, i as int, meio as int);
                assert forall|p: int, q: int| 0 <= p < out.len() && 0 <= q < l2.len() implies ord_le(#[trigger] out[p], #[trigger] l2[q]) by {
                    assert(out[p] == arr@[p]);
                    assert(ord_le(left[i as int], left[i + q]));
                }
                lemma_sorted_concat(out, l2);
            }
        }
    } else if j < n {
        copy_run(arr, buffer, j, n, k);
        proof {
            let r2 = right.subrange(j - meio, n - meio);
            assert(buffer@.subrange(j as int, n as int) =~= r2);
            assert(arr@ =~= out + r2);
            assert(left.subrange(i as int, meio as int).len() == 0);
            assert(merge_runs(left.subrange(i as int, meio as int), r2) == r2);
            let r1 = right.subrange(0, j - meio);
            assert(left.subrange(0, i as int) =~= left);
            assert(r1 + r2 =~= right);
            lemma_multiset_commutative(out, r2);
            lemma_multiset_commutative(r1, r2);
            assert(arr@.to_multiset() =~= a0.to_multiset());
            if ok {
                lemma_merge_rest_right(out, left, r1, r2);
                lemma_sorted_subrange(right, j - meio, n - meio);
                assert forall|p: int, q: int| 0 <= p < out.len() && 0 <= q < r2.len() implies ord_le(#[trigger] out[p], #[trigger] r2[q]) by {
                    assert(out[p] == arr@[p]);
                    assert(ord_le(right[j - meio], right[j - meio + q]));
                }
                lemma_sorted_concat(out, r2);
            }
        }
    } else {
        proof {
            assert(arr@ =~= out);
            assert(merge_runs(left.subrange(i as int, meio as int), right.subrange(j - meio, n - meio)).len() == 0);
            assert(out + merge_runs(left.subrange(i as int, meio as int), right.subrange(j - meio, n - meio)) =~= out);
            assert(left.subrange(0, i as int) =~= left);
            assert(right.subrange(0, j - meio) =~= right);
        }
    }
    proof {
        if ok {
            lemma_ties_left_then_right(arr@, left, right);
        }
    }
}

/// The run `arr[lo..hi]` as a slice of its own; what is written through it
/// lands in `arr`, and the rest of `arr` is left as it was.
fn run_mut<'a, T>(arr: &'a mut [T], lo: usize, hi: usize) -> (run: &'a mut [T])
    requires
        lo <= hi <= old(arr)@.len(),
    ensures
        run@ == old(arr)@.subrange(lo as int, hi as int),
        final(arr)@ == old(arr)@.subrange(0, lo as int) + final(run)@ + old(arr)@.subrange(
            hi as int,
            old(arr)@.len() as int,
        ),
{
    let (_, rest) = arr.split_at_mut(lo);
    let (run, _) = rest.split_at_mut(hi - lo);
    run
}

/// Where run `b` of width `w` ends in a sequence of `n` elements.
pub open spec fn run_end(n: int, w: int, b: int) -> int {
    if b * w + w < n {
        b * w + w
    } else {
        n
    }
}

/// Run `b` of width `w` of `cur` is a stable sort of the same run of `orig`.
pub open spec fn run_sorted<T: Ord>(orig: Seq<T>, cur: Seq<T>, w: int, b: int) -> bool {
    let lo = b * w;
    let hi = run_end(orig.len() as int, w, b);
    is_stable_sort_of(orig.subrange(lo, hi), cur.subrange(lo, hi))
}

proof fn lemma_run_index(b: int, m: int, w: int)
    requires
        0 <= b,
        0 <= m,
        w > 0,
    ensures
        b * w < m * w ==> b < m && b * w + w <= m * w,
        m * w <= b * w < m * w + w ==> b == m,
        b * w >= 0,
        (m + 1) * w == m * w + w,
        (2 * m) * w == m * (2 * w),
        (2 * m + 1) * w == m * (2 * w) + w,
        b >= m ==> b * w >= m * w,
{
    assert(b * w < m * w ==> b < m && b * w + w <= m * w) by (nonlinear_arith)
        requires w > 0, b >= 0, m >= 0;
    assert(m * w <= b * w < m * w + w ==> b == m) by (nonlinear_arith)
        requires w > 0, b >= 0, m >= 0;
    assert(b * w >= 0) by (nonlinear_arith)
        requires w > 0, b >= 0;
    assert((m + 1) * w == m * w + w) by (nonlinear_arith);
    assert((2 * m) * w == m * (2 * w)) by (nonlinear_arith);
    assert((2 * m + 1) * w == m * (2 * w) + w) by (nonlinear_arith);
    assert(b >= m ==> b * w >= m * w) by (nonlinear_arith)
        requires w > 0;
}

/// Writing `x` over `cur[lo..hi]` leaves every run that lies outside `lo..hi` as it was.
proof fn lemma_run_untouched<T: Ord>(orig: Seq<T>, cur: Seq<T>, x: Seq<T>, lo: int, hi: int, w: int, b: int)
    requires
        orig.len() == cur.len(),
        0 <= lo <= hi <= cur.len(),
        x.len() == hi - lo,
        w > 0,
        0 <= b * w,
        b * w <= cur.len(),
        run_end(cur.len() as int, w, b) <= lo || hi <= b * w,
        run_sorted(orig, cur, w, b),
    ensures
        run_sorted(orig, cur.subrange(0, lo) + x + cur.subrange(hi, cur.len() as int), w, b),
{
    let new = cur.subrange(0, lo) + x + cur.subrange(hi, cur.len() as int);
    let a = b * w;
    let e = run_end(cur.len() as int, w, b);
    assert(new.subrange(a, e) =~= cur.subrange(a, e));
}

/// Sorts `arr` bottom-up: insertion sort on runs of `calcular_minrun(n)`
/// elements, then merges neighbouring runs of doubling width through `buffer`.
fn ordenar_sequencial_timsort_style<T: Ord + Copy>(arr: &mut [T], buffer: &mut [T])
    requires
        total_order::<T>(),
        1 <= old(arr)@.len() <= old(buffer)@.len(),
    ensures
        final(buffer)@.len() == old(buffer)@.len(),
        is_stable_sort_of(old(arr)@, final(arr)@),
{
    let n = arr.len();
    let ghost a0 = arr@;
    let minrun = calcular_minrun(n);
    let mut i: usize = 0;
    let ghost mut m: int = 0;
    while i < n
        invariant
            total_order::<T>(),
            arr@.len() == n,
            a0.len() == n,
            1 <= minrun <= n,
            buffer@.len() == old(buffer)@.len(),
            0 <= m,
            i == (if m * minrun < n { m * minrun } else { n as int }),
            forall|b: int| 0 <= b && b * minrun < i ==> #[trigger] run_sorted(a0, arr@, minrun as int, b),
            arr@.subrange(i as int, n as int) == a0.subrange(i as int, n as int),
        decreases n - i,
    {
        let end = if minrun < n - i { i + minrun } else { n };
        let ghost cur = arr@;
        proof {
            lemma_run_index(0, m, minrun as int);
            assert(cur.subrange(i as int, end as int) =~= a0.subrange(i as int, end as int)) by {
                assert(cur.subrange(i as int, end as int) =~= cur.subrange(i as int, n as int).subrange(0, end - i));
                assert(a0.subrange(i as int, end as int) =~= a0.subrange(i as int, n as int).subrange(0, end - i));
            }
        }
        let run = run_mut(arr, i, end);
        insertion_sort(run);
        let ghost sorted_run = run@;
        proof {
            let x = arr@.subrange(i as int, end as int);
            assert(x =~= sorted_run);
            assert(arr@ =~= cur.subrange(0, i as int) + x + cur.subrange(end as int, n as int));
            assert forall|b: int| 0 <= b && b * minrun < end implies #[trigger] run_sorted(a0, arr@, minrun as int, b) by {
                lemma_run_index(b, m, minrun as int);
                if b * minrun < i {
                    lemma_run_untouched(a0, cur, x, i as int, end as int, minrun as int, b);
                } else {
                    assert(b == m);
                }
            }
            assert(arr@.subrange(end as int, n as int) =~= a0.subrange(end as int, n as int)) by {
                assert(arr@.subrange(end as int, n as int) =~= cur.subrange(i as int, n as int).subrange(end - i, n - i));
                assert(a0.subrange(end as int, n as int) =~= a0.subrange(i as int, n as int).subrange(end - i, n - i));
            }
            lemma_run_index(0, m + 1, minrun as int);
            m = m + 1;
        }
        i = end;
    }
    let mut tamanho: usize = minrun;
    while tamanho < n
        invariant
            total_order::<T>(),
            arr@.len() == n,
            a0.len() == n,
            1 <= tamanho,
            buffer@.len() == old(buffer)@.len(),
            n <= buffer@.len(),
            forall|b: int| 0 <= b && b * tamanho < n ==> #[trigger] run_sorted(a0, arr@, tamanho as int, b),
        decreases n - tamanho,
    {
        let ghost w = tamanho as int;
        let mut esq: usize = 0;
        let ghost mut m: int = 0;
        while esq < n
            invariant
                total_order::<T>(),
                arr@.len() == n,
                a0.len() == n,
                w == tamanho,
                1 <= tamanho < n,
                buffer@.len() == old(buffer)@.len(),
                n <= buffer@.len(),
                0 <= m,
                esq == (if m * (2 * w) < n { m * (2 * w) } else { n as int }),
                forall|b: int| 0 <= b && b * (2 * w) < esq ==> #[trigger] run_sorted(a0, arr@, 2 * w, b),
                forall|b: int| 2 * m <= b && b * w < n ==> #[trigger] run_sorted(a0, arr@, w, b),
            decreases n - esq,
        {
            let meio = if tamanho < n - esq { esq + tamanho } else { n };
            let dir = if tamanho < n - meio { meio + tamanho } else { n };
            let ghost cur = arr@;
            proof {
                lemma_run_index(0, m, 2 * w);
                lemma_run_index(0, m, w);
                lemma_run_index(0, 2 * m, w);
                lemma_run_index(0, 2 * m + 1, w);
            }
            if meio < dir {
                proof {
                    assert(run_sorted(a0, cur, w, 2 * m));
                    assert(run_sorted(a0, cur, w, 2 * m + 1));
                    let run = cur.subrange(esq as int, dir as int);
                    assert(run.subrange(0, meio - esq) =~= cur.subrange(esq as int, meio as int));
                    assert(run.subrange(meio - esq, run.len() as int) =~= cur.subrange(meio as int, dir as int));
                }
                let run = run_mut(arr, esq, dir);
                mesclar_estavel(run, buffer, meio - esq);
                let ghost merged = run@;
                proof {
                    let x = arr@.subrange(esq as int, dir as int);
                    assert(x =~= merged);
                    let run = cur.subrange(esq as int, dir as int);
                    assert(arr@ =~= cur.subrange(0, esq as int) + x + cur.subrange(dir as int, n as int));
                    let ol = a0.subrange(esq as int, meio as int);
                    let or = a0.subrange(meio as int, dir as int);
                    assert(run =~= cur.subrange(esq as int, meio as int) + cur.subrange(meio as int, dir as int));
                    lemma_tie_order_concat(ol, cur.subrange(esq as int, meio as int), or, cur.subrange(meio as int, dir as int));
                    lemma_tie_order_trans(ol + or, run, x);
                    assert(ol + or =~= a0.subrange(esq as int, dir as int));
                    lemma_tie_order_same_multiset(a0.subrange(esq as int, dir as int), x);
                    assert(run_sorted(a0, arr@, 2 * w, m));
                    assert forall|b: int| 0 <= b && b * (2 * w) < dir implies #[trigger] run_sorted(a0, arr@, 2 * w, b) by {
                        lemma_run_index(b, m, 2 * w);
                        if b * (2 * w) < esq {
                            lemma_run_untouched(a0, cur, x, esq as int, dir as int, 2 * w, b);
                        } else {
                            assert(b == m);
                        }
                    }
                    assert forall|b: int| 2 * (m + 1) <= b && b * w < n implies #[trigger] run_sorted(a0, arr@, w, b) by {
                        lemma_run_index(b, 2 * m + 2, w);
                        lemma_run_index(0, m + 1, 2 * w);
                        lemma_run_untouched(a0, cur, x, esq as int, dir as int, w, b);
                    }
                }
            } else {
                proof {
                    assert(run_sorted(a0, cur, w, 2 * m));
                    assert forall|b: int| 0 <= b && b * (2 * w) < dir implies #[trigger] run_sorted(a0, arr@, 2 * w, b) by {
                        lemma_run_index(b, m, 2 * w);
                        if b * (2 * w) >= esq {
                            assert(b == m);
                        }
                    }
                    assert forall|b: int| 2 * (m + 1) <= b && b * w < n implies #[trigger] run_sorted(a0, arr@, w, b) by {
                        lemma_run_index(b, 2 * m + 2, w);
                    }
                }
            }
            proof {
                lemma_run_index(0, m + 1, 2 * w);
                m = m + 1;
            }
            esq = dir;
        }
        proof {
            assert forall|b: int| 0 <= b && b * (2 * w) < n implies #[trigger] run_sorted(a0, arr@, 2 * w, b) by {}
        }
        if tamanho <= n / 2 {
            tamanho = tamanho * 2;
        } else {
            proof {
                lemma_run_index(0, 0, 2 * w);
                assert(run_sorted(a0, arr@, 2 * w, 0));
                assert forall|b: int| 0 <= b && b * n < n implies #[trigger] run_sorted(a0, arr@, n as int, b) by {
                    lemma_run_index(b, 1, n as int);
                    assert(b == 0);
                }
            }
            tamanho = n;
        }
    }
    proof {
        lemma_run_index(0, 0, tamanho as int);
        assert(run_sorted(a0, arr@, tamanho as int, 0));
        assert(a0.subrange(0, n as int) =~= a0);
        assert(arr@.subrange(0, n as int) =~= arr@);
    }
}

/// Sorts `arr` in parallel: runs of at most `threshold` elements are sorted
/// sequentially; longer ones are split in half, the halves sorted in parallel,
/// then merged.
pub(crate) fn sort_recursivo_paralelo<T: Ord + Copy + Send>(arr: &mut [T], buffer: &mut [T], threshold: usize)
    requires
        total_order::<T>(),
        threshold >= 1,
        1 <= old(arr)@.len() <= old(buffer)@.len(),
    ensures
        final(buffer)@.len() == old(buffer)@.len(),
        is_stable_sort_of(old(arr)@, final(arr)@),
{
    let n = arr.len();
    if n <= threshold {
        ordenar_sequencial_timsort_style(arr, buffer);
        return;
    }
    let ghost a0 = arr@;
    let meio = n / 2;
    let (arr_esq, arr_dir) = arr.split_at_mut(meio);
    let (buf_esq, buf_dir) = buffer.split_at_mut(meio);
    join_sorts(arr_esq, buf_esq, arr_dir, buf_dir, threshold);
    let ghost (l, r) = (arr_esq@, arr_dir@);
    proof {
        assert(a0 =~= a0.subrange(0, meio as int) + a0.subrange(meio as int, n as int));
        lemma_tie_order_concat(a0.subrange(0, meio as int), l, a0.subrange(meio as int, n as int), r);
        assert(arr@ =~= l + r);
        assert(arr@.subrange(0, meio as int) =~= l);
        assert(arr@.subrange(meio as int, n as int) =~= r);
    }
    let ghost halves = arr@;
    mesclar_estavel(arr, buffer, meio);
    proof {
        lemma_tie_order_trans(a0, halves, arr@);
        lemma_tie_order_same_multiset(a0, arr@);
    }
}

/// Counts the rising and falling steps inside chunk `i` of `arr`: the
/// `TAMANHO_BLOCO` elements from `i * TAMANHO_BLOCO`, plus the first element of
/// the next chunk.
pub(crate) fn contar_bloco<T: Ord>(arr: &[T], i: usize) -> (r: (usize, usize))
    requires
        total_order::<T>(),
        i * TAMANHO_BLOCO < arr@.len(),
    ensures
        r.0 == ascents(arr@, i * TAMANHO_BLOCO + 1, chunk_end(arr@.len() as int, i as int)),
        r.1 == descents(arr@, i * TAMANHO_BLOCO + 1, chunk_end(arr@.len() as int, i as int)),
{
    let n = arr.len();
    let inicio = i * TAMANHO_BLOCO;
    let fim = if TAMANHO_BLOCO + 1 < n - inicio { inicio + TAMANHO_BLOCO + 1 } else { n };
    let bloco = &arr[inicio..fim];
    let mut asc: usize = 0;
    let mut desc: usize = 0;
    let mut j: usize = 1;
    while j < bloco.len()
        invariant
            total_order::<T>(),
            bloco@ == arr@.subrange(inicio as int, fim as int),
            inicio < fim <= arr@.len(),
            fim == chunk_end(arr@.len() as int, i as int),
            inicio == i * TAMANHO_BLOCO,
            1 <= j <= bloco@.len(),
            asc == ascents(arr@, inicio + 1, inicio + j),
            desc == descents(arr@, inicio + 1, inicio + j),
            asc <= j,
            desc <= j,
        decreases bloco@.len() - j,
    {
        if lt_ord(&bloco[j - 1], &bloco[j]) {
            asc += 1;
        } else if gt_ord(&bloco[j - 1], &bloco[j]) {
            desc += 1;
        }
        proof {
            lemma_order_laws::<T>();
        }
        j += 1;
    }
    (asc, desc)
}

/// Adds two pairs of counts, component by component, saturating at `usize::MAX`.
pub(crate) fn somar_contagens(a: (usize, usize), b: (usize, usize)) -> (r: (usize, usize))
    ensures
        r.0 == capped((a.0 + b.0) as nat),
        r.1 == capped((a.1 + b.1) as nat),
{
    (a.0.saturating_add(b.0), a.1.saturating_add(b.1))
}

/// The counts before any chunk is counted.
pub(crate) fn contagem_vazia() -> (r: (usize, usize))
    ensures
        r == (0usize, 0usize),
{
    (0, 0)
}

/// Below this many elements the trend check is skipped.
pub const MINIMO_TENDENCIA: usize = 100000;

/// Input that the trend check reverses: long enough to be checked, and every
/// step between neighbours falls, so no two neighbours compare equal.
pub open spec fn reversed_by_trend_check<T: Ord>(s: Seq<T>) -> bool {
    &&& s.len() >= MINIMO_TENDENCIA
    &&& falling_steps(s) == s.len() - 1
}

/// For inputs of at least `MINIMO_TENDENCIA` elements, counts the rising and
/// falling steps between neighbours in parallel. With no falling step the input
/// is already sorted. With no rising step and no step between equal neighbours
/// it is strictly falling and is reversed, which sorts it without moving any
/// tie. Returns whether either happened; then `arr` is its stable sort.
fn detectar_tendencia_global<T: Ord + Sync>(arr: &mut [T]) -> (r: bool)
    requires
        total_order::<T>(),
    ensures
        r == (old(arr)@.len() >= MINIMO_TENDENCIA && (falling_steps(old(arr)@) == 0
            || falling_steps(old(arr)@) == old(arr)@.len() - 1)),
        final(arr)@ == (if reversed_by_trend_check(old(arr)@) { old(arr)@.reverse() } else { old(arr)@ }),
        r ==> is_stable_sort_of(old(arr)@, final(arr)@),
{
    let n = arr.len();
    if n < MINIMO_TENDENCIA {
        return false;
    }
    let chunk_size = TAMANHO_BLOCO;
    let qtd_blocos = n / chunk_size + if n % chunk_size != 0 { 1 } else { 0 };
    proof {
        lemma_chunk_count(n as int);
        assert(qtd_blocos == chunk_count(n as int));
        lemma_chunks_cover(arr@, qtd_blocos as int);
        lemma_steps_bound(arr@, 1, n as int);
        lemma_steps_exclusive(arr@, 1, n as int);
    }
    let arr_imutavel: &[T] = arr;
    let (subindo, descendo) = contar_tendencias(arr_imutavel, qtd_blocos);
    if descendo == 0 {
        proof {
            lemma_no_falling_sorted(arr@);
            lemma_tie_order_refl(arr@);
        }
        return true;
    }
    if subindo == 0 && descendo == n - 1 {
        proof {
            lemma_all_falling_adjacent(arr@, n as int);
            lemma_falling_reverse_is_stable_sort(arr@);
        }
        arr.reverse();
        return true;
    }
    if descendo > 0 && descendo < (n / 20) {
        return false;
    }
    false
}

/// Where the noise probe around the middle of `n` elements stops.
pub open spec fn probe_end(n: int) -> int {
    if n / 2 + 100 < n - 1 {
        n / 2 + 100
    } else {
        n - 1
    }
}

/// Input that the noise probe calls pure noise: more than 15 changes of
/// direction in the steps just after the middle.
pub open spec fn looks_like_noise<T: Ord>(s: Seq<T>) -> bool {
    direction_changes(s, s.len() as int / 2 + 1, probe_end(s.len() as int)) > 15
}

/// Probes about a hundred steps after the middle of `arr` and counts how often
/// the direction (rising or not) changes; more than 15 changes mean noise.
fn e_caos_puro<T: Ord>(arr: &[T]) -> (r: bool)
    requires
        total_order::<T>(),
        arr@.len() > 120,
    ensures
        r == looks_like_noise(arr@),
{
    let n = arr.len();
    let mid = n / 2;
    let mut mudancas_direcao: usize = 0;
    let mut subindo = le_ord(&arr[mid], &arr[mid + 1]);
    let fim = (mid + 100).min(n - 1);
    let mut i: usize = mid + 1;
    while i < fim
        invariant
            total_order::<T>(),
            arr@.len() == n,
            n > 120,
            mid == n / 2,
            fim == probe_end(n as int),
            mid + 1 <= i,
            i <= fim || fim <= mid + 1,
            fim < n,
            subindo == rises_at(arr@, i - 1),
            mudancas_direcao == direction_changes(arr@, mid + 1, i as int),
            mudancas_direcao <= i - (mid + 1),
        decreases fim - i,
    {
        let direcao_atual = le_ord(&arr[i], &arr[i + 1]);
        if direcao_atual != subindo {
            mudancas_direcao += 1;
            subindo = direcao_atual;
        }
        i += 1;
    }
    mudancas_direcao > 15
}

/// Below this many elements the engine uses insertion sort alone.
pub const MINIMO_PARALELO: usize = 1024;

/// The smallest run that the parallel merge sort sorts sequentially.
pub const LIMIAR_MINIMO: usize = 1000000;

/// Sorts `arr`, stably. Short inputs go to insertion sort. Longer ones first go
/// through the global trend check, which leaves sorted input alone and reverses
/// strictly falling input. Otherwise a probe near the middle decides between the
/// parallel merge sort of this crate and rayon's parallel stable sort for input
/// that looks like noise. On every path the result is sorted, holds the same
/// elements, and keeps elements that compare equal in their input order.
pub fn ordenar_multi_merge_generic<T: Ord + Sync + Send + Copy>(arr: &mut [T])
    requires
        total_order::<T>(),
    ensures
        is_stable_sort_of(old(arr)@, final(arr)@),
{
    let n = arr.len();
    if n < MINIMO_PARALELO {
        insertion_sort(arr);
        return;
    }
    if detectar_tendencia_global(arr) {
        return;
    }
    let mut caos = false;
    if n > 120 {
        if e_caos_puro(arr) {
            caos = true;
        }
    }
    if !caos {
        let mut buffer = vec![arr[0]; n];
        let num_threads = current_num_threads();
        let threshold = (n / num_threads).max(LIMIAR_MINIMO);
        sort_recursivo_paralelo(arr, buffer.as_mut_slice(), threshold);
    } else {
        par_sort(arr);
    }
}

} // verus!
